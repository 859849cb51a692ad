use data_merge::card_distribution::{
    find_distribution_fault, read_card_distribution_time, DistributionFault, DistributionRecord,
};
use data_merge::clock::DateTime;

fn record(label: &str, start: Option<&str>, end: Option<&str>) -> DistributionRecord {
    DistributionRecord {
        label: label.to_string(),
        start: start.map(|s| s.to_string()),
        end: end.map(|s| s.to_string()),
    }
}

fn hm(hour: i64, minute: i64) -> DateTime {
    DateTime { secs: 1781668800 + (hour - 4) * 3600 + minute * 60, nanos: 0 }
}

#[test]
fn distribution_hours() {
    let rows = vec![
        record("In", Some("06/17/2026 9:00 AM"), Some("06/17/2026 4:00 PM")),
        record("Out", Some("06/17/2026 9:30 AM"), Some("06/17/2026 5:00 PM")),
    ];
    assert!(find_distribution_fault(&rows).is_none());
    let t = read_card_distribution_time(&rows);
    assert_eq!(t.in_start_time, hm(9, 0));
    assert_eq!(t.in_end_time, hm(16, 0));
    assert_eq!(t.out_start_time, hm(9, 30));
    assert_eq!(t.out_end_time, hm(17, 0));
}

#[test]
fn blank_cells_and_later_rows() {
    let rows = vec![
        record("Out", Some("06/17/2026 9:30 AM"), Some("06/17/2026 5:00 PM")),
        record("In", Some("  "), None),
        record("Out", Some("06/17/2026 10:30 AM"), Some("06/17/2026 6:00 PM")),
        record("Break", Some("06/17/2026 12:00 PM"), Some("")),
    ];
    let t = read_card_distribution_time(&rows);
    assert_eq!(t.in_start_time, DateTime { secs: 0, nanos: 0 });
    assert_eq!(t.in_end_time, DateTime { secs: 0, nanos: 0 });
    assert_eq!(t.out_start_time, hm(10, 30));
    assert_eq!(t.out_end_time, hm(18, 0));
}

#[test]
fn distribution_faults() {
    let rows = vec![record("In", Some("9 AM"), None), record("Out", None, Some("noon"))];
    match find_distribution_fault(&rows) {
        Some(DistributionFault::UnreadableTime(t)) => assert_eq!(t, "9 AM"),
        _ => panic!("expected an unreadable time"),
    }
    let rows = vec![record("Out", Some("later"), None)];
    match find_distribution_fault(&rows) {
        Some(DistributionFault::UnreadableTime(t)) => assert_eq!(t, "later"),
        _ => panic!("expected an unreadable time"),
    }
    let rows = vec![record("Out", None, None)];
    match find_distribution_fault(&rows) {
        Some(DistributionFault::MissingLabel(l)) => assert_eq!(l, "In"),
        _ => panic!("expected a missing label"),
    }
    let rows = vec![record("In", None, None)];
    match find_distribution_fault(&rows) {
        Some(DistributionFault::MissingLabel(l)) => assert_eq!(l, "Out"),
        _ => panic!("expected a missing label"),
    }
}
