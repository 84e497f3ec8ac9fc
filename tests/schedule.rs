use merge_sorted_chunks::schedule::{
    check_config, choose_work_dir, WorkDir, intermediate_file_name, plan_round, ConfigError, RoundController, Step,
};

fn names(n: usize) -> Vec<String> {
    (0..n).map(|i| format!("f{}", i)).collect()
}

#[test]
fn fan_in_two_with_five_sources() {
    let mut ctl = RoundController::start(5, 2).unwrap();
    let mut sources = names(5);
    let mut rounds: Vec<Vec<Vec<String>>> = Vec::new();
    loop {
        match ctl.next_step(sources) {
            Step::Round(jobs) => {
                rounds.push(jobs.iter().map(|j| j.inputs.clone()).collect());
                sources = jobs.into_iter().map(|j| j.output).collect();
            }
            Step::Final(last) => {
                sources = last;
                break;
            }
        }
    }
    assert_eq!(
        rounds[0],
        vec![
            vec!["f0".to_string(), "f1".to_string()],
            vec!["f2".to_string(), "f3".to_string()],
            vec!["f4".to_string()],
        ]
    );
    assert_eq!(rounds.len(), 2);
    assert_eq!(
        rounds[1],
        vec![
            vec![
                "merged_chunks_0_0.ndjson.zst".to_string(),
                "merged_chunks_0_1.ndjson.zst".to_string()
            ],
            vec!["merged_chunks_0_2.ndjson.zst".to_string()],
        ]
    );
    assert_eq!(
        sources,
        vec!["merged_chunks_1_0.ndjson.zst".to_string(), "merged_chunks_1_1.ndjson.zst".to_string()]
    );
    assert_eq!(ctl.round, 2);
}

#[test]
fn few_sources_go_straight_to_the_final_merge() {
    let mut ctl = RoundController::start(3, 64).unwrap();
    match ctl.next_step(names(3)) {
        Step::Final(v) => assert_eq!(v, names(3)),
        Step::Round(_) => panic!("no round expected"),
    }
    let mut ctl = RoundController::start(4, 4).unwrap();
    assert!(matches!(ctl.next_step(names(4)), Step::Final(_)));
    assert_eq!(ctl.round, 0);
}

#[test]
fn rounds_shrink_until_one_batch() {
    let mut ctl = RoundController::start(1000, 3).unwrap();
    let mut sources = names(1000);
    let mut counts = vec![sources.len()];
    loop {
        match ctl.next_step(sources) {
            Step::Round(jobs) => {
                sources = jobs.into_iter().map(|j| j.output).collect();
                counts.push(sources.len());
            }
            Step::Final(last) => {
                assert!(last.len() <= 3);
                break;
            }
        }
    }
    assert_eq!(counts, vec![1000, 334, 112, 38, 13, 5, 2]);
    // ceil(log_3(1000)) is 7
    assert!(counts.len() - 1 <= 7);
}

#[test]
fn empty_input_is_refused() {
    assert_eq!(RoundController::start(0, 64).err(), Some(ConfigError::NoInput));
    assert_eq!(check_config(0, 64), Err(ConfigError::NoInput));
}

#[test]
fn batch_size_must_exceed_one() {
    assert_eq!(check_config(10, 1), Err(ConfigError::BatchTooSmall));
    assert_eq!(check_config(0, 0), Err(ConfigError::BatchTooSmall));
    assert_eq!(RoundController::start(5, 1).err(), Some(ConfigError::BatchTooSmall));
    assert_eq!(check_config(1, 2), Ok(()));
}

#[test]
fn plan_names_every_batch() {
    let jobs = plan_round(names(7), 3, 12);
    assert_eq!(jobs.len(), 3);
    assert_eq!(jobs[2].inputs, vec!["f6".to_string()]);
    assert_eq!(jobs[1].batch_id, 1);
    assert_eq!(jobs[1].round, 12);
    assert_eq!(jobs[1].output, "merged_chunks_12_1.ndjson.zst");
    assert!(plan_round(Vec::new(), 3, 0).is_empty());
}

#[test]
fn intermediate_names_are_distinct() {
    assert_eq!(intermediate_file_name(0, 0), "merged_chunks_0_0.ndjson.zst");
    assert_eq!(intermediate_file_name(1, 23), "merged_chunks_1_23.ndjson.zst");
    assert_ne!(intermediate_file_name(12, 3), intermediate_file_name(1, 23));
}

#[test]
fn names_write_large_numbers_in_full() {
    assert_eq!(
        intermediate_file_name(1234567890, 9),
        "merged_chunks_1234567890_9.ndjson.zst"
    );
    assert_eq!(
        intermediate_file_name(usize::MAX, 10),
        format!("merged_chunks_{}_10.ndjson.zst", usize::MAX)
    );
}

#[test]
fn work_dir_choice() {
    assert_eq!(choose_work_dir(None, false, true), WorkDir::Scratch);
    assert_eq!(
        choose_work_dir(Some("t".to_string()), false, true),
        WorkDir::Create("t".to_string())
    );
    assert_eq!(
        choose_work_dir(Some("t".to_string()), true, true),
        WorkDir::Use("t".to_string())
    );
    assert_eq!(
        choose_work_dir(Some("t".to_string()), true, false),
        WorkDir::NotEmpty("t".to_string())
    );
}
