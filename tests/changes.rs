use merge_sorted_chunks::changes::{
    build_revocations_url, build_submissions_url, calculate_max_timestamp, first_unseen_timestamp,
    summarize_changes, SampleData,
};

fn sample(id: &str, ts: i64) -> SampleData {
    SampleData {
        sample_id: Some(id.to_string()),
        submitted_at_timestamp: ts,
        version_status: None,
        version_comment: None,
    }
}

#[test]
fn test_build_submissions_url() {
    let url = build_submissions_url("https://api.example.org", "covid", 1700000000, "2024-01-01");
    assert_eq!(
        url,
        "https://api.example.org/covid/sample/details?submittedAtTimestampFrom=1700000000&samplingDateFrom=2024-01-01&dataFormat=JSON&downloadAsFile=false"
    );
}

#[test]
fn test_build_submissions_url_rsva() {
    let url = build_submissions_url(
        "https://api.db.wasap.genspectrum.org",
        "rsva",
        1700000000,
        "2024-06-15",
    );
    assert!(url.contains("/rsva/sample/details"));
    assert!(url.contains("submittedAtTimestampFrom=1700000000"));
    assert!(url.contains("samplingDateFrom=2024-06-15"));
}

#[test]
fn test_build_revocations_url() {
    let url = build_revocations_url("https://api.example.org", "covid", 1700000000);
    assert_eq!(
        url,
        "https://api.example.org/covid/sample/details?submittedAtTimestampFrom=1700000000&isRevocation=true&dataFormat=JSON&downloadAsFile=false"
    );
}

#[test]
fn test_build_revocations_url_rsvb() {
    let url = build_revocations_url("https://api.example.org", "rsvb", 1600000000);
    assert!(url.contains("/rsvb/sample/details"));
    assert!(url.contains("isRevocation=true"));
}

#[test]
fn test_calculate_max_timestamp_empty() {
    let samples: Vec<SampleData> = vec![];
    assert_eq!(calculate_max_timestamp(&samples), None);
}

#[test]
fn test_calculate_max_timestamp_single() {
    let samples = [SampleData {
        sample_id: Some("test1".to_string()),
        submitted_at_timestamp: 1700000000,
        version_status: None,
        version_comment: None,
    }];
    assert_eq!(calculate_max_timestamp(&samples), Some(1700000000));
}

#[test]
fn test_calculate_max_timestamp_multiple() {
    let samples = [
        SampleData {
            sample_id: Some("test1".to_string()),
            submitted_at_timestamp: 1700000000,
            version_status: None,
            version_comment: None,
        },
        SampleData {
            sample_id: Some("test2".to_string()),
            submitted_at_timestamp: 1700000500,
            version_status: None,
            version_comment: None,
        },
        SampleData {
            sample_id: Some("test3".to_string()),
            submitted_at_timestamp: 1700000100,
            version_status: None,
            version_comment: None,
        },
    ];
    assert_eq!(calculate_max_timestamp(&samples), Some(1700000500));
}

#[test]
fn max_timestamp_of_negative_values() {
    let samples = [sample("a", -5), sample("b", -2), sample("c", -9)];
    assert_eq!(calculate_max_timestamp(&samples), Some(-2));
}

#[test]
fn urls_write_negative_and_extreme_timestamps() {
    assert_eq!(
        build_revocations_url("http://h", "x", -42),
        "http://h/x/sample/details?submittedAtTimestampFrom=-42&isRevocation=true&dataFormat=JSON&downloadAsFile=false"
    );
    let url = build_submissions_url("http://h", "x", i64::MIN, "2020-02-29");
    assert!(url.contains("submittedAtTimestampFrom=-9223372036854775808&"));
    let url = build_submissions_url("http://h", "x", 0, "d");
    assert!(url.contains("submittedAtTimestampFrom=0&samplingDateFrom=d&"));
}

#[test]
fn summary_covers_both_queries() {
    let subs = [sample("a", 10), sample("b", 30)];
    let revs = [sample("c", 50)];
    assert_eq!(summarize_changes(&subs, &revs), (true, Some(50)));
    assert_eq!(summarize_changes(&subs, &[]), (true, Some(30)));
    assert_eq!(summarize_changes(&[], &revs), (true, Some(50)));
    assert_eq!(summarize_changes(&[], &[]), (false, None));
}

#[test]
fn next_query_starts_after_last_update() {
    assert_eq!(first_unseen_timestamp(1700000000), Some(1700000001));
    assert_eq!(first_unseen_timestamp(i64::MAX), None);
}
