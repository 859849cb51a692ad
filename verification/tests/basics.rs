use data_merge::clock::{DateTime, TimeOfDay};
use data_merge::model::{Activity, CensoredVisit, ResearchTime, Timestamp, Visit, Weather};
use data_merge::text::{same_text, trim};

fn at(secs: i64) -> DateTime {
    DateTime { secs, nanos: 0 }
}

#[test]
fn activity_names_parse() {
    assert_eq!(Activity::parse("Jordan Pond House"), Ok(Activity::JordanPondHouse));
    assert_eq!(Activity::parse("Other Walking Trails"), Ok(Activity::Trails));
    assert_eq!(Activity::parse("Jordan Pond"), Ok(Activity::JordanPond));
    let parsed: Result<Activity, String> = "Jordan Pond".parse();
    assert_eq!(parsed, Ok(Activity::JordanPond));
}

#[test]
fn activity_refusal_message() {
    assert_eq!(
        Activity::parse("jordan pond"),
        Err("'jordan pond' is not a valid Activity".to_string())
    );
    assert_eq!(Activity::parse(" Jordan Pond"), Err("' Jordan Pond' is not a valid Activity".to_string()));
}

#[test]
fn weather_names_round_trip() {
    for w in [Weather::Sunny, Weather::Rain, Weather::OnOffRain, Weather::Cloudy, Weather::Thunderstorm] {
        assert_eq!(Weather::parse(&w.name()), Ok(w));
    }
    assert_eq!(Weather::OnOffRain.name(), "On and Off Rain");
    assert_eq!(Weather::parse("Thunderstorm"), Ok(Weather::Thunderstorm));
    assert_eq!(Weather::parse("Snow"), Err("'Snow' is not a valid weather".to_string()));
}

#[test]
fn timestamps_compare_by_start() {
    let a = Timestamp { start: at(100), end: at(200) };
    let b = Timestamp { start: at(100), end: at(100) };
    let c = Timestamp { start: at(50), end: at(400) };
    assert!(a == b);
    assert!(c < a);
    assert!(a > c);
    assert_eq!(a.partial_cmp(&b), Some(std::cmp::Ordering::Equal));
    assert!(b.is_exact());
    assert!(!a.is_exact());
}

#[test]
fn clock_time_and_weekday() {
    // 2026-06-17 13:05:07, a Wednesday
    let t = at(1781701507);
    assert_eq!(t.time(), TimeOfDay { secs: 13 * 3600 + 5 * 60 + 7, nanos: 0 });
    assert_eq!(t.weekday(), 2);
    // 1970-01-01 was a Thursday; the second before it a Wednesday at 23:59:59
    assert_eq!(at(0).weekday(), 3);
    assert_eq!(at(-1).weekday(), 2);
    assert_eq!(at(-1).time(), TimeOfDay { secs: 86399, nanos: 0 });
}

#[test]
fn minutes_truncate_toward_zero() {
    assert_eq!(at(0).minutes_until(&at(119)), 1);
    assert_eq!(at(119).minutes_until(&at(0)), -1);
    assert_eq!(at(0).minutes_until(&at(120)), 2);
    assert_eq!(at(i64::MIN).minutes_until(&at(i64::MAX)), (u64::MAX / 60) as i64);
}

#[test]
fn visit_durations() {
    let v = Visit {
        in_time: at(1781692200),
        out_time: at(1781692200 + 95 * 60 + 30),
        parked: true,
        people_in_car: 3,
        activities: vec![Activity::Trails],
        weather: Weather::Sunny,
    };
    assert_eq!(v.duration(), 95);
    let c = CensoredVisit {
        parked: true,
        in_time: at(1000),
        out_time_start: at(1000 + 600),
        out_time_end: at(1000 + 3600),
    };
    assert_eq!(c.min_duration(), 10);
    assert_eq!(c.max_duration(), 60);
    // an exit window opening before the entrance wraps like the cast of a negative count
    let early = CensoredVisit { parked: false, in_time: at(600), out_time_start: at(0), out_time_end: at(600) };
    assert_eq!(early.min_duration(), (-10i64) as usize);
    assert_eq!(early.max_duration(), 0);
}

#[test]
fn research_time_window() {
    let rt = ResearchTime { start: at(1781692200), end: at(1781733600), weather: Weather::Rain };
    assert!(rt.is_within(TimeOfDay { secs: 10 * 3600 + 30 * 60, nanos: 0 }));
    assert!(rt.is_within(TimeOfDay { secs: 22 * 3600, nanos: 0 }));
    assert!(!rt.is_within(TimeOfDay { secs: 22 * 3600 + 1, nanos: 0 }));
    assert!(!rt.is_within(TimeOfDay { secs: 10 * 3600, nanos: 0 }));
}

#[test]
fn trimming_and_comparing_text() {
    assert_eq!(trim("  Jordan Pond \t\n"), "Jordan Pond");
    assert_eq!(trim("\u{3000}x\u{a0}"), "x");
    assert_eq!(trim("   "), "");
    assert_eq!(trim(trim(" \t a b \n")), trim(" \t a b \n"));
    assert!(same_text("Rain", "Rain"));
    assert!(!same_text("Rain", "rain"));
}

#[test]
fn leap_seconds_stand_apart() {
    // 2026-06-30 23:59:59, then the leap second 23:59:60, then 2026-07-01 00:00:00
    let before = at(1782863999);
    let leap = DateTime { secs: 1782863999, nanos: 1_000_000_000 };
    let after = at(1782864000);
    assert!(before.is_earlier(&leap) && leap.is_earlier(&after));
    assert!(!Timestamp { start: before, end: leap }.is_exact());
    assert!(Timestamp { start: before, end: before } != Timestamp { start: leap, end: leap });
    assert_eq!(leap.time(), TimeOfDay { secs: 86399, nanos: 1_000_000_000 });
    // chrono counts the leap second: 23:58:59 to 23:59:60 is a minute and a second
    let from = at(1782863999 - 60);
    assert_eq!(from.minutes_until(&leap), 1);
    assert_eq!(at(1782863999 - 59).minutes_until(&leap), 1);
    assert_eq!(at(1782863999 - 58).minutes_until(&leap), 0);
    assert_eq!(leap.minutes_until(&at(1782864000 + 60)), 1);
    // a research time ending at 23:59:59 does not take in the leap second
    let rt = ResearchTime { start: at(1782863999 - 3600), end: before, weather: Weather::Cloudy };
    assert!(rt.is_within(TimeOfDay { secs: 86399, nanos: 0 }));
    assert!(!rt.is_within(TimeOfDay { secs: 86399, nanos: 1_000_000_000 }));
}

#[test]
fn censored_lengths_are_ordered() {
    let c = CensoredVisit {
        parked: true,
        in_time: at(1782863999 - 600),
        out_time_start: DateTime { secs: 1782863999, nanos: 1_000_000_000 },
        out_time_end: at(1782864000 + 3600),
    };
    assert!(c.min_duration() <= c.max_duration());
    assert_eq!(c.min_duration(), 10);
    assert_eq!(c.max_duration(), 70);
    // an entrance within a second, away from leap seconds
    let half = CensoredVisit {
        parked: false,
        in_time: DateTime { secs: 1000, nanos: 500_000_000 },
        out_time_start: DateTime { secs: 1059, nanos: 400_000_000 },
        out_time_end: DateTime { secs: 1060, nanos: 600_000_000 },
    };
    assert_eq!((half.min_duration(), half.max_duration()), (0, 1));
}
