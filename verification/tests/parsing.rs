use data_merge::activity_list::parse_activity_list;
use data_merge::clock::DateTime;
use data_merge::model::Activity;
use data_merge::parsers::{
    moment_of_day, parse_bool, parse_date, parse_optional_date, parse_optional_number,
    read_twelve_hour,
};

#[test]
fn dates_in_both_clocks() {
    // 2026-06-17 10:30:00
    assert_eq!(parse_date("06/17/2026 10:30 AM"), Some(DateTime { secs: 1781692200, nanos: 0 }));
    assert_eq!(parse_date("  06/17/2026 10:30:00 \n"), Some(DateTime { secs: 1781692200, nanos: 0 }));
    assert_eq!(parse_date("6/17/2026 1:05:07"), Some(DateTime { secs: 1781701507 - 12 * 3600, nanos: 0 }));
    assert_eq!(parse_date("06/17/2026 13:05:07"), Some(DateTime { secs: 1781701507, nanos: 0 }));
    assert_eq!(parse_date("June 17"), None);
    // a leap second reads as its own moment, after 23:59:59
    assert_eq!(
        parse_date("06/30/2026 23:59:60"),
        Some(DateTime { secs: 1782863999, nanos: 1_000_000_000 })
    );
    assert_eq!(parse_date("06/30/2026 23:59:59"), Some(DateTime { secs: 1782863999, nanos: 0 }));
}

#[test]
fn optional_dates() {
    assert_eq!(parse_optional_date("").unwrap(), None);
    assert_eq!(parse_optional_date(" Unknown ").unwrap(), None);
    assert_eq!(
        parse_optional_date("06/17/2026 10:30 PM").unwrap(),
        Some(DateTime { secs: 1781692200 + 12 * 3600, nanos: 0 })
    );
    assert!(parse_optional_date("06/17/2026 22:30:00").is_err());
    assert!(parse_optional_date("unknown").is_err());
}

#[test]
fn optional_numbers() {
    assert_eq!(parse_optional_number("").unwrap(), None);
    assert_eq!(parse_optional_number("Unknown").unwrap(), None);
    assert_eq!(parse_optional_number(" 12 ").unwrap(), Some(12));
    assert!(parse_optional_number("twelve").is_err());
    assert!(parse_optional_number("-3").is_err());
    assert_eq!(parse_optional_number("+7").unwrap(), Some(7));
    assert_eq!(parse_optional_number("007").unwrap(), Some(7));
    assert!(parse_optional_number("+").is_err());
    assert!(parse_optional_number("4 2").is_err());
    let too_big = format!("{}0", usize::MAX);
    assert!(parse_optional_number(&too_big).is_err());
    assert_eq!(parse_optional_number(&usize::MAX.to_string()).unwrap(), Some(usize::MAX));
}

#[test]
fn yes_no_cells() {
    assert_eq!(parse_bool(" TRUE ").unwrap(), true);
    assert_eq!(parse_bool("False").unwrap(), false);
    assert!(parse_bool("yes").is_err());
    assert!(parse_bool("").is_err());
}

#[test]
fn moments_of_the_day() {
    assert_eq!(moment_of_day("6-17", "22:00:00"), Some(DateTime { secs: 1781733600, nanos: 0 }));
    assert_eq!(moment_of_day("6-17", "04:00:00"), Some(DateTime { secs: 1781668800, nanos: 0 }));
    assert_eq!(moment_of_day("6-31", "04:00:00"), None);
    assert_eq!(read_twelve_hour("01/01/1970 12:00 AM"), Some(DateTime { secs: 0, nanos: 0 }));
}

#[test]
fn activity_lists() {
    assert_eq!(
        parse_activity_list("Jordan Pond, Other Walking Trails,Jordan Pond House"),
        Ok(vec![Activity::JordanPond, Activity::Trails, Activity::JordanPondHouse])
    );
    assert_eq!(parse_activity_list(""), Ok(vec![]));
    assert_eq!(parse_activity_list(",,Jordan Pond,"), Ok(vec![Activity::JordanPond]));
    assert_eq!(
        parse_activity_list("Jordan Pond, "),
        Err("'' is not a valid Activity".to_string())
    );
    assert_eq!(
        parse_activity_list("Swimming, Nowhere"),
        Err("'Swimming' is not a valid Activity".to_string())
    );
}
