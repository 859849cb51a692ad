use data_merge::card_data::{
    calculate_data_timestamps, find_bad_code, load_day, CardDistributionTime, DayFault, InLine, Missing, OutLine,
};
use data_merge::clock::DateTime;
use data_merge::model::{Activity, CensoredVisit, DataTimestamp, Timestamp, Weather};
use data_merge::pairing::{calculate_censored_visits, calculate_visits, find_incomplete_visit};

// 2026-06-17 at the given hour and minute
fn hm(hour: i64, minute: i64) -> DateTime {
    DateTime { secs: 1781668800 + (hour - 4) * 3600 + minute * 60, nanos: 0 }
}

fn out_line(code: usize, time: DateTime, parked: bool, people: u8, activities: &str) -> OutLine {
    OutLine { code, time, parked, people_in_car: people, activities: activities.to_string() }
}

fn distribution() -> CardDistributionTime {
    CardDistributionTime {
        in_start_time: hm(9, 0),
        out_start_time: hm(9, 30),
        in_end_time: hm(16, 0),
        out_end_time: hm(17, 0),
    }
}

#[test]
fn card_records_in_row_order() {
    let ins = vec![InLine { code: 1, time: hm(10, 0) }, InLine { code: 1, time: hm(12, 0) }];
    let outs = vec![out_line(1, hm(11, 30), true, 3, "Jordan Pond")];
    let recs = calculate_data_timestamps(&ins, &outs, &Missing::No(hm(17, 0)), &hm(22, 0));
    assert_eq!(recs.len(), 4);
    // still inside: the leftover exit comes first, from the observers' leaving to the day's end
    assert!(!recs[0].is_in);
    assert_eq!(recs[0].timestamp.start, hm(17, 0));
    assert_eq!(recs[0].timestamp.end, hm(22, 0));
    assert_eq!(recs[0].parked, None);
    assert!(recs[1].is_in && recs[2].is_in);
    assert_eq!(recs[1].timestamp.start, hm(10, 0));
    assert_eq!(recs[3].parked, Some(true));
    assert_eq!(recs[3].people_in_car, Some(3));
    assert_eq!(recs[3].activities, vec![Activity::JordanPond]);

    // a missing card leaves from its last entrance
    let recs = calculate_data_timestamps(&ins, &outs, &Missing::Yes, &hm(22, 0));
    assert_eq!(recs[0].timestamp.start, hm(12, 0));

    // a card last seen going out gets no leftover exit
    let late_out = vec![out_line(1, hm(13, 0), false, 1, "")];
    let recs = calculate_data_timestamps(&ins, &late_out, &Missing::Yes, &hm(22, 0));
    assert_eq!(recs.len(), 3);
    assert!(recs[0].is_in);
}

#[test]
fn visits_pair_sorted_records() {
    let ins = vec![InLine { code: 1, time: hm(12, 0) }, InLine { code: 1, time: hm(10, 0) }];
    let outs = vec![out_line(1, hm(11, 30), true, 3, "Jordan Pond, Other Walking Trails")];
    let recs = calculate_data_timestamps(&ins, &outs, &Missing::No(hm(17, 0)), &hm(22, 0));
    assert_eq!(find_incomplete_visit(&recs), None);
    let visits = calculate_visits(&recs, Weather::Cloudy);
    assert_eq!(visits.len(), 1);
    assert_eq!(visits[0].in_time, hm(10, 0));
    assert_eq!(visits[0].out_time, hm(11, 30));
    assert_eq!(visits[0].parked, true);
    assert_eq!(visits[0].people_in_car, 3);
    assert_eq!(visits[0].activities, vec![Activity::JordanPond, Activity::Trails]);
    assert_eq!(visits[0].weather, Weather::Cloudy);
    assert_eq!(visits[0].duration(), 90);

    let censored = calculate_censored_visits(&recs);
    assert_eq!(
        censored,
        vec![
            CensoredVisit { parked: true, in_time: hm(10, 0), out_time_start: hm(11, 30), out_time_end: hm(11, 30) },
            CensoredVisit { parked: true, in_time: hm(12, 0), out_time_start: hm(17, 0), out_time_end: hm(22, 0) },
        ]
    );
}

#[test]
fn two_entrances_in_a_row_keep_the_later() {
    let ins = vec![InLine { code: 1, time: hm(10, 0) }, InLine { code: 1, time: hm(10, 5) }];
    let outs = vec![out_line(1, hm(11, 0), false, 2, "")];
    let recs = calculate_data_timestamps(&ins, &outs, &Missing::Yes, &hm(22, 0));
    let visits = calculate_visits(&recs, Weather::Sunny);
    assert_eq!(visits.len(), 1);
    assert_eq!(visits[0].in_time, hm(10, 5));
    assert_eq!(visits[0].duration(), 55);
}

#[test]
fn equal_starts_keep_row_order() {
    // an entrance and an exit at the same minute: the entrance row comes first
    let ins = vec![InLine { code: 1, time: hm(10, 0) }];
    let outs = vec![out_line(1, hm(10, 0), true, 1, "")];
    let recs = calculate_data_timestamps(&ins, &outs, &Missing::Yes, &hm(22, 0));
    let visits = calculate_visits(&recs, Weather::Sunny);
    assert_eq!(visits.len(), 1);
    assert_eq!(visits[0].duration(), 0);
}

#[test]
fn a_day_of_cards() {
    let ins = vec![
        InLine { code: 2, time: hm(10, 0) },
        InLine { code: 1, time: hm(10, 15) },
        InLine { code: 2, time: hm(13, 0) },
    ];
    let outs = vec![
        out_line(1, hm(11, 0), true, 4, "Jordan Pond House"),
        out_line(2, hm(12, 0), false, 2, ""),
    ];
    let day = load_day(&ins, &outs, &vec![2], &distribution(), Weather::Rain, &hm(22, 0)).ok().unwrap();
    // card 1 first, then card 2
    assert_eq!(day.visits.len(), 2);
    assert_eq!(day.visits[0].in_time, hm(10, 15));
    assert_eq!(day.visits[0].activities, vec![Activity::JordanPondHouse]);
    assert_eq!(day.visits[1].in_time, hm(10, 0));
    assert_eq!(day.visits[1].out_time, hm(12, 0));
    assert_eq!(day.visits[1].weather, Weather::Rain);
    // card 2 is missing and still inside: its leftover exit starts at 13:00, as its last
    // entrance does, and the stable sort keeps it (the first record) ahead of that entrance,
    // so the last entrance pairs with nothing
    assert_eq!(day.censored_visits.len(), 2);
    assert_eq!(
        day.censored_visits[1],
        CensoredVisit { parked: false, in_time: hm(10, 0), out_time_start: hm(12, 0), out_time_end: hm(12, 0) }
    );
    assert_eq!(
        day.in_timestamps,
        vec![
            Timestamp { start: hm(10, 15), end: hm(10, 15) },
            Timestamp { start: hm(10, 0), end: hm(10, 0) },
            Timestamp { start: hm(13, 0), end: hm(13, 0) },
        ]
    );
    assert_eq!(day.out_timestamps.len(), 3);
    assert_eq!(day.out_timestamps[1].start, hm(13, 0));
    assert_eq!(day.out_timestamps[1].end, hm(22, 0));
    assert_eq!(day.research_time.start, hm(9, 0));
    assert_eq!(day.research_time.end, hm(17, 0));
    assert_eq!(day.research_time.weather, Weather::Rain);
}

#[test]
fn day_faults() {
    let d = distribution();
    let bad_code = vec![InLine { code: 301, time: hm(10, 0) }];
    assert_eq!(find_bad_code(&bad_code, &vec![]), Some(301));
    let zero = vec![out_line(0, hm(10, 0), true, 1, "")];
    assert_eq!(find_bad_code(&vec![InLine { code: 300, time: hm(9, 0) }], &zero), Some(0));
    assert_eq!(find_bad_code(&vec![InLine { code: 1, time: hm(9, 0) }], &vec![]), None);
    let unreadable = vec![out_line(5, hm(10, 0), true, 1, "Jordan Pond, Lake")];
    match load_day(&vec![], &unreadable, &vec![], &d, Weather::Sunny, &hm(22, 0)) {
        Err(DayFault::InvalidActivity(m)) => assert_eq!(m, "'Lake' is not a valid Activity"),
        _ => panic!("expected an invalid activity"),
    }
    // the observers leave at the very end of the day: the leftover exit is exact and
    // pairs with the entrance, but has no parking status
    let late = CardDistributionTime { out_end_time: hm(22, 0), ..d };
    let ins = vec![InLine { code: 7, time: hm(15, 0) }];
    let outs = vec![out_line(7, hm(14, 0), true, 1, "")];
    match load_day(&ins, &outs, &vec![], &late, Weather::Sunny, &hm(22, 0)) {
        Err(DayFault::NoParkingRecord(t)) => assert_eq!(t, hm(22, 0)),
        _ => panic!("expected a missing parking status"),
    }
}

#[test]
fn incomplete_exit_is_found() {
    let exact = |t: DateTime| Timestamp { start: t, end: t };
    let recs = vec![
        DataTimestamp {
            timestamp: exact(hm(11, 0)),
            is_in: false,
            parked: Some(true),
            people_in_car: None,
            activities: vec![],
        },
        DataTimestamp { timestamp: exact(hm(10, 0)), is_in: true, parked: None, people_in_car: None, activities: vec![] },
    ];
    // sorted: the entrance at 10:00, then the exit at 11:00, which lacks its head count
    assert_eq!(find_incomplete_visit(&recs), Some(0));
    let complete = vec![DataTimestamp {
        timestamp: exact(hm(11, 0)),
        is_in: false,
        parked: None,
        people_in_car: None,
        activities: vec![],
    }];
    assert_eq!(find_incomplete_visit(&complete), None);
}
