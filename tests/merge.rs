use merge_sorted_chunks::heap::{HeapEntry, MinHeap};
use merge_sorted_chunks::key::keyed_record;
use merge_sorted_chunks::merge::{merge_runs, KeyedRecord};
use merge_sorted_chunks::stream::LineMerger;

fn run(keys: &[i64], tag: &str) -> Vec<KeyedRecord> {
    let mut v = Vec::new();
    for (i, k) in keys.iter().enumerate() {
        v.push(KeyedRecord { sort_field: *k, line: format!("{}{}", tag, i) });
    }
    v
}

fn keys(v: &[KeyedRecord]) -> Vec<i64> {
    v.iter().map(|r| r.sort_field).collect()
}

#[test]
fn merge_example_three_sources() {
    let runs = vec![run(&[1, 4, 9], "a"), run(&[2, 3], "b"), run(&[5, 5, 10], "c")];
    let out = merge_runs(&runs);
    assert_eq!(keys(&out), vec![1, 2, 3, 4, 5, 5, 9, 10]);
    let mut lines: Vec<String> = out.iter().map(|r| r.line.clone()).collect();
    lines.sort();
    assert_eq!(lines, vec!["a0", "a1", "a2", "b0", "b1", "c0", "c1", "c2"]);
}

#[test]
fn merge_single_source_is_unchanged() {
    let runs = vec![run(&[3, 3, 3, 7, 8], "s")];
    let out = merge_runs(&runs);
    let lines: Vec<&str> = out.iter().map(|r| r.line.as_str()).collect();
    assert_eq!(lines, vec!["s0", "s1", "s2", "s3", "s4"]);
    assert_eq!(keys(&out), vec![3, 3, 3, 7, 8]);
}

#[test]
fn merge_with_empty_sources() {
    assert!(merge_runs(&Vec::new()).is_empty());
    let runs = vec![run(&[], "a"), run(&[-3, 0], "b"), run(&[], "c"), run(&[i64::MIN, i64::MAX], "d")];
    assert_eq!(keys(&merge_runs(&runs)), vec![i64::MIN, -3, 0, i64::MAX]);
}

#[test]
fn test_binary_heap_pops_smallest_first() {
    let mut heap = MinHeap::new();
    heap.push(HeapEntry { sort_field: 30, value: "{\"ts\": 30}".to_string(), index: 0 });
    heap.push(HeapEntry { sort_field: 10, value: "{\"ts\": 10}".to_string(), index: 1 });
    heap.push(HeapEntry { sort_field: 20, value: "{\"ts\": 20}".to_string(), index: 2 });
    assert_eq!(heap.len(), 3);
    assert_eq!(heap.pop_min().unwrap().sort_field, 10);
    assert_eq!(heap.pop_min().unwrap().sort_field, 20);
    let last = heap.pop_min().unwrap();
    assert_eq!(last.sort_field, 30);
    assert_eq!(last.index, 0);
    assert!(heap.pop_min().is_none());
    assert!(heap.is_empty());
}

#[test]
fn line_merger_streams_records_in_key_order() {
    let sources: Vec<Vec<&str>> = vec![
        vec![r#"{"k": 1}"#, r#"{"k": 4}"#],
        vec![r#"{"k": 2}"#, r#"{"k": 3}"#, r#"{"k": 9}"#],
    ];
    let mut next = vec![0usize; sources.len()];
    let mut m = LineMerger::new(sources.len());
    for i in 0..sources.len() {
        m.offer(i, keyed_record(sources[i][0].to_string(), "/k").unwrap());
        next[i] = 1;
    }
    assert!(m.is_pending(0) && m.is_pending(1));
    let mut out = Vec::new();
    while let Some(e) = m.next_record() {
        out.push(e.value);
        let i = e.index;
        assert!(!m.is_pending(i));
        if next[i] < sources[i].len() {
            m.offer(i, keyed_record(sources[i][next[i]].to_string(), "/k").unwrap());
            next[i] += 1;
        }
    }
    assert!(m.is_empty());
    assert_eq!(
        out,
        vec![r#"{"k": 1}"#, r#"{"k": 2}"#, r#"{"k": 3}"#, r#"{"k": 4}"#, r#"{"k": 9}"#]
    );
}

#[test]
fn line_merger_with_an_empty_source() {
    let mut m = LineMerger::new(3);
    m.offer(2, KeyedRecord { sort_field: 5, line: "five".to_string() });
    m.offer(0, KeyedRecord { sort_field: 5, line: "other five".to_string() });
    assert!(!m.is_pending(1));
    let a = m.next_record().unwrap();
    let b = m.next_record().unwrap();
    assert_eq!((a.sort_field, b.sort_field), (5, 5));
    assert_ne!(a.index, b.index);
    assert!(m.next_record().is_none());
}

#[test]
fn test_heap_entry_ordering_min_heap() {
    let entry1 = HeapEntry { sort_field: 10, value: r#"{"id":1}"#.to_string(), index: 0 };
    let entry2 = HeapEntry { sort_field: 20, value: r#"{"id":2}"#.to_string(), index: 1 };
    assert_eq!(entry1.cmp(&entry2), std::cmp::Ordering::Greater);
    assert_eq!(entry2.cmp(&entry1), std::cmp::Ordering::Less);
}

#[test]
fn test_heap_entry_equal_sort_fields() {
    let entry1 = HeapEntry { sort_field: 100, value: r#"{"id":1}"#.to_string(), index: 0 };
    let entry2 = HeapEntry { sort_field: 100, value: r#"{"id":2}"#.to_string(), index: 1 };
    assert_eq!(entry1.cmp(&entry2), std::cmp::Ordering::Equal);
}

#[test]
fn merge_keeps_the_order_of_each_run() {
    let runs = vec![run(&[1, 1, 1, 2], "a"), run(&[1, 1, 2], "b"), run(&[0, 1], "c")];
    let out = merge_runs(&runs);
    assert_eq!(keys(&out), vec![0, 1, 1, 1, 1, 1, 1, 2, 2]);
    for tag in ["a", "b", "c"] {
        let from: Vec<&str> = out
            .iter()
            .map(|r| r.line.as_str())
            .filter(|l| l.starts_with(tag))
            .collect();
        let expected: Vec<String> = runs[(tag.as_bytes()[0] - b'a') as usize]
            .iter()
            .map(|r| r.line.clone())
            .collect();
        assert_eq!(from, expected);
    }
}
