use data_merge::card_data::CardDay;
use data_merge::clicker_data::{load_day, ClickerDay, ClickerLine};
use data_merge::clock::{DateTime, TimeOfDay};
use data_merge::dates::load_dates;
use data_merge::model::{Activity, CensoredVisit, ResearchTime, Timestamp, Visit, Weather};
use data_merge::output::{research_time_lines, CensoredVisitLine, VisitLine};

fn hm(hour: i64, minute: i64) -> DateTime {
    DateTime { secs: 1781668800 + (hour - 4) * 3600 + minute * 60, nanos: 0 }
}

#[test]
fn clicker_rows_become_timestamps() {
    let rows = vec![
        ClickerLine { start_time: None, end_time: Some(hm(10, 0)), in_count: Some(3), out_count: Some(1) },
        ClickerLine { start_time: Some(hm(10, 0)), end_time: Some(hm(11, 0)), in_count: None, out_count: Some(1) },
    ];
    let day = load_day(&rows, 1, &hm(4, 0), &hm(22, 0));
    let first = Timestamp { start: hm(4, 0), end: hm(10, 0) };
    let second = Timestamp { start: hm(10, 0), end: hm(11, 0) };
    assert_eq!(day.in_timestamps, vec![first, first, first]);
    // 3 in, 2 out, 1 missing card: nobody is left inside
    assert_eq!(day.out_timestamps, vec![first, second]);

    let day = load_day(&rows, 0, &hm(4, 0), &hm(22, 0));
    assert_eq!(day.out_timestamps, vec![first, second, Timestamp { start: hm(11, 0), end: hm(22, 0) }]);

    // a single row does not count the missing cards
    let one = vec![ClickerLine { start_time: Some(hm(9, 0)), end_time: Some(hm(12, 0)), in_count: Some(2), out_count: None }];
    let day = load_day(&one, 5, &hm(4, 0), &hm(22, 0));
    assert_eq!(day.out_timestamps.len(), 2);
    assert_eq!(day.out_timestamps[0], Timestamp { start: hm(12, 0), end: hm(22, 0) });

    let none = load_day(&vec![], 5, &hm(4, 0), &hm(22, 0));
    assert!(none.in_timestamps.is_empty() && none.out_timestamps.is_empty());
}

#[test]
fn research_table_counts() {
    // 2026-06-17 is a Wednesday, 2026-06-18 a Thursday
    let rts = vec![
        ResearchTime { start: hm(9, 0), end: hm(17, 0), weather: Weather::Sunny },
        ResearchTime {
            start: DateTime { secs: hm(8, 0).secs + 86400, nanos: 0 },
            end: DateTime { secs: hm(12, 30).secs + 86400, nanos: 0 },
            weather: Weather::Rain,
        },
    ];
    let lines = research_time_lines(&rts);
    assert_eq!(lines.len(), 901);
    assert_eq!(lines[0].time, TimeOfDay { secs: 6 * 3600, nanos: 0 });
    assert_eq!(lines[900].time, TimeOfDay { secs: 21 * 3600, nanos: 0 });
    assert_eq!(lines[0].total, 0);
    // 08:00
    let eight = &lines[120];
    assert_eq!((eight.total, eight.rain, eight.thursday, eight.wednesday), (1, 1, 1, 0));
    // 10:00
    let ten = &lines[240];
    assert_eq!((ten.total, ten.sunny, ten.rain, ten.wednesday, ten.thursday), (2, 1, 1, 1, 1));
    // 12:30 still counts, 12:31 not
    assert_eq!(lines[390].rain, 1);
    assert_eq!(lines[391].rain, 0);
    // the columns add up to the total
    for l in &lines {
        assert_eq!(l.total, l.sunny + l.rain + l.on_off_rain + l.cloudy + l.thunderstorm);
        assert_eq!(
            l.total,
            l.monday + l.tuesday + l.wednesday + l.thursday + l.friday + l.saturday + l.sunday
        );
    }
    // 17:00
    assert_eq!(lines[660].total, 1);
    assert_eq!(lines[661].total, 0);
}

#[test]
fn table_rows() {
    let v = Visit {
        in_time: hm(10, 0),
        out_time: hm(11, 45),
        parked: false,
        people_in_car: 2,
        activities: vec![Activity::Trails, Activity::JordanPond],
        weather: Weather::OnOffRain,
    };
    let row = VisitLine::from_visit(&v);
    assert_eq!(row.duration, 105);
    assert!(row.visited_jordan_pond && row.visited_other_trails && !row.visited_jordan_pond_house);
    assert_eq!(row.weather, "On and Off Rain");
    let c = CensoredVisit { parked: true, in_time: hm(10, 0), out_time_start: hm(17, 0), out_time_end: hm(22, 0) };
    let row = CensoredVisitLine::from_visit(&c);
    assert_eq!((row.min_duration, row.max_duration), (420, 720));
}

#[test]
fn days_gather_in_order() {
    let day = |h: i64, w: Weather| {
        (
            CardDay {
                visits: vec![],
                censored_visits: vec![],
                in_timestamps: vec![Timestamp { start: hm(h, 0), end: hm(h, 0) }],
                out_timestamps: vec![],
                research_time: ResearchTime { start: hm(h, 0), end: hm(h + 1, 0), weather: w },
            },
            ClickerDay {
                in_timestamps: vec![Timestamp { start: hm(h, 30), end: hm(h, 30) }],
                out_timestamps: vec![Timestamp { start: hm(h, 45), end: hm(h, 45) }],
            },
        )
    };
    let all = load_dates(vec![day(9, Weather::Sunny), day(12, Weather::Rain)]);
    let starts: Vec<DateTime> = all.in_timestamps.iter().map(|t| t.start).collect();
    assert_eq!(starts, vec![hm(9, 0), hm(9, 30), hm(12, 0), hm(12, 30)]);
    assert_eq!(all.out_timestamps.len(), 2);
    assert_eq!(all.research_times.len(), 2);
    assert_eq!(all.research_times[1].weather, Weather::Rain);
}
