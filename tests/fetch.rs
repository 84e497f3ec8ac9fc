use merge_sorted_chunks::fetch::{
    admit_reads, build_samples_url, latest_by_id, total_reads, CalendarDate,
};

fn ids(v: &[&str]) -> Vec<String> {
    v.iter().map(|s| s.to_string()).collect()
}

#[test]
fn test_build_samples_url() {
    let date = CalendarDate::from_ymd(2024, 6, 15).unwrap();
    let url = build_samples_url("https://api.example.org", "covid", &date);
    assert_eq!(
        url,
        "https://api.example.org/covid/sample/details?samplingDate=2024-06-15&dataFormat=JSON&downloadAsFile=false"
    );
}

#[test]
fn test_build_samples_url_rsva() {
    let date = CalendarDate::from_ymd(2024, 12, 1).unwrap();
    let url = build_samples_url("https://api.db.wasap.genspectrum.org", "rsva", &date);
    assert!(url.contains("/rsva/sample/details"));
    assert!(url.contains("samplingDate=2024-12-01"));
}

#[test]
fn dates_are_padded_and_checked() {
    assert_eq!(CalendarDate::from_ymd(7, 1, 9).unwrap().to_iso_string(), "0007-01-09");
    assert_eq!(CalendarDate::from_ymd(9999, 12, 31).unwrap().to_iso_string(), "9999-12-31");
    assert!(CalendarDate::from_ymd(2024, 2, 29).is_some());
    assert!(CalendarDate::from_ymd(2023, 2, 29).is_none());
    assert!(CalendarDate::from_ymd(1900, 2, 29).is_none());
    assert!(CalendarDate::from_ymd(2000, 2, 29).is_some());
    assert!(CalendarDate::from_ymd(2024, 4, 31).is_none());
    assert!(CalendarDate::from_ymd(2024, 13, 1).is_none());
    assert!(CalendarDate::from_ymd(2024, 0, 1).is_none());
    assert!(CalendarDate::from_ymd(2024, 1, 0).is_none());
    assert!(CalendarDate::from_ymd(-1, 1, 1).is_none());
    assert!(CalendarDate::from_ymd(10000, 1, 1).is_none());
}

#[test]
fn repeated_sample_ids_keep_the_last_entry() {
    let (keep, dropped) = latest_by_id(&ids(&["sample1", "sample1", "sample2"]));
    assert_eq!(keep, vec![1, 2]);
    assert_eq!(dropped, 1);
    let (keep, dropped) = latest_by_id(&ids(&["a", "b", "a", "c", "b", "a"]));
    assert_eq!(keep, vec![3, 4, 5]);
    assert_eq!(dropped, 3);
}

#[test]
fn no_samples_keep_nothing() {
    let (keep, dropped) = latest_by_id(&Vec::new());
    assert!(keep.is_empty());
    assert_eq!(dropped, 0);
    let (keep, dropped) = latest_by_id(&ids(&["x", "y"]));
    assert_eq!(keep, vec![0, 1]);
    assert_eq!(dropped, 0);
}

#[test]
fn read_budget_stops_before_the_limit() {
    assert_eq!(admit_reads(0, 1000, 1000), Some(1000));
    assert_eq!(admit_reads(500, 501, 1000), None);
    assert_eq!(admit_reads(u64::MAX, 1, u64::MAX), None);
    assert_eq!(admit_reads(2000, 0, 1000), None);
}

#[test]
fn read_totals_check_overflow() {
    assert_eq!(total_reads(&[1000, 2000, 12345678]), Some(12348678));
    assert_eq!(total_reads(&[]), Some(0));
    assert_eq!(total_reads(&[u64::MAX, 1]), None);
    assert_eq!(total_reads(&[u64::MAX - 1, 1]), Some(u64::MAX));
}
