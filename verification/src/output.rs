use vstd::prelude::*;

use crate::clock::{DateTime, TimeOfDay, minutes_between, weekday_index};
use crate::model::{
    Activity, CensoredVisit, ResearchTime, Visit, Weather, weather_name, within_research_time,
};

verus! {

/// A row of the visits table.
pub struct VisitLine {
    pub in_time: DateTime,
    pub out_time: DateTime,
    pub duration: usize,
    pub parked: bool,
    pub people_in_car: u8,
    pub visited_jordan_pond: bool,
    pub visited_jordan_pond_house: bool,
    pub visited_other_trails: bool,
    pub weather: String,
}

/// Whether `activities` lists `a`.
fn lists_activity(activities: &Vec<Activity>, a: Activity) -> (res: bool)
    ensures
        res == activities@.contains(a),
{
    let mut i: usize = 0;
    while i < activities.len()
        invariant
            i <= activities.len(),
            forall|j: int| 0 <= j < i ==> activities@[j] != a,
        decreases activities.len() - i,
    {
        if activities[i] == a {
            return true;
        }
        i = i + 1;
    }
    false
}

impl VisitLine {
    /// The row of a visit: its times, its length in minutes, what was recorded at the
    /// exit, which places were visited and the name of the weather.
    pub fn from_visit(visit: &Visit) -> (res: VisitLine)
        ensures
            res.in_time == visit.in_time,
            res.out_time == visit.out_time,
            res.duration == minutes_between(visit.in_time, visit.out_time) as usize,
            res.parked == visit.parked,
            res.people_in_car == visit.people_in_car,
            res.visited_jordan_pond == visit.activities@.contains(Activity::JordanPond),
            res.visited_jordan_pond_house == visit.activities@.contains(Activity::JordanPondHouse),
            res.visited_other_trails == visit.activities@.contains(Activity::Trails),
            res.weather@ == weather_name(visit.weather),
    {
        VisitLine {
            in_time: visit.in_time,
            out_time: visit.out_time,
            duration: visit.duration(),
            parked: visit.parked,
            people_in_car: visit.people_in_car,
            visited_jordan_pond: lists_activity(&visit.activities, Activity::JordanPond),
            visited_jordan_pond_house: lists_activity(&visit.activities, Activity::JordanPondHouse),
            visited_other_trails: lists_activity(&visit.activities, Activity::Trails),
            weather: visit.weather.name(),
        }
    }
}

/// A row of the censored visits table.
#[derive(Clone, Copy, Debug, PartialEq, Eq, Structural)]
pub struct CensoredVisitLine {
    pub in_time: DateTime,
    pub out_time_start: DateTime,
    pub out_time_end: DateTime,
    pub min_duration: usize,
    pub max_duration: usize,
    pub parked: bool,
}

impl CensoredVisitLine {
    /// The row of a censored visit: its times, the least and greatest possible length in
    /// minutes, and whether the car parked.
    pub fn from_visit(visit: &CensoredVisit) -> (res: CensoredVisitLine)
        ensures
            res == (CensoredVisitLine {
                in_time: visit.in_time,
                out_time_start: visit.out_time_start,
                out_time_end: visit.out_time_end,
                min_duration: minutes_between(visit.in_time, visit.out_time_start) as usize,
                max_duration: minutes_between(visit.in_time, visit.out_time_end) as usize,
                parked: visit.parked,
            }),
    {
        CensoredVisitLine {
            in_time: visit.in_time,
            out_time_start: visit.out_time_start,
            out_time_end: visit.out_time_end,
            min_duration: visit.min_duration(),
            max_duration: visit.max_duration(),
            parked: visit.parked,
        }
    }
}

/// The number of rows of the research-time table: one per minute from 06:00 to 21:00.
pub const RESEARCH_MINUTES: usize = 901;

/// The minute of the day of the table's first row (06:00).
pub const FIRST_RESEARCH_MINUTE: usize = 360;

/// Which research times a column of the research-time table counts.
#[derive(Clone, Copy, Debug, PartialEq, Eq, Structural)]
pub enum Tally {
    /// Every research time.
    All,
    /// The research times with this weather.
    Weather(Weather),
    /// The research times that start on this day of the week (Monday is 0).
    Weekday(u8),
}

/// Whether research time `rt` counts in column `tally` at clock time `time`: the time lies
/// within it and it is of the column's kind.
pub open spec fn counts_in(rt: ResearchTime, time: TimeOfDay, tally: Tally) -> bool {
    within_research_time(rt, time) && match tally {
        Tally::All => true,
        Tally::Weather(w) => rt.weather == w,
        Tally::Weekday(d) => weekday_index(rt.start) == d,
    }
}

/// How many of `rts` count in column `tally` at clock time `time`.
pub open spec fn tally_count(rts: Seq<ResearchTime>, time: TimeOfDay, tally: Tally) -> nat
    decreases rts.len(),
{
    if rts.len() == 0 {
        0
    } else {
        tally_count(rts.drop_last(), time, tally) + if counts_in(rts.last(), time, tally) {
            1nat
        } else {
            0nat
        }
    }
}

/// A row of the research-time table: a clock time and how many research times include
/// it, in all, by weather and by the weekday of their start.
#[derive(Clone, Copy, Debug, PartialEq, Eq, Structural)]
pub struct TimeLine {
    pub time: TimeOfDay,
    pub total: u8,
    pub sunny: u8,
    pub rain: u8,
    pub on_off_rain: u8,
    pub cloudy: u8,
    pub thunderstorm: u8,
    pub monday: u8,
    pub tuesday: u8,
    pub wednesday: u8,
    pub thursday: u8,
    pub friday: u8,
    pub saturday: u8,
    pub sunday: u8,
}

/// The clock time of row `i` of the research-time table.
pub open spec fn row_time(i: int) -> TimeOfDay {
    TimeOfDay { secs: ((i + FIRST_RESEARCH_MINUTE) * 60) as u32, nanos: 0 }
}

/// Row `i` of the research-time table; each count is kept modulo 256, as the `as u8`
/// cast of the count keeps it.
pub open spec fn time_line(rts: Seq<ResearchTime>, i: int) -> TimeLine {
    let t = row_time(i);
    TimeLine {
        time: t,
        total: tally_count(rts, t, Tally::All) as u8,
        sunny: tally_count(rts, t, Tally::Weather(Weather::Sunny)) as u8,
        rain: tally_count(rts, t, Tally::Weather(Weather::Rain)) as u8,
        on_off_rain: tally_count(rts, t, Tally::Weather(Weather::OnOffRain)) as u8,
        cloudy: tally_count(rts, t, Tally::Weather(Weather::Cloudy)) as u8,
        thunderstorm: tally_count(rts, t, Tally::Weather(Weather::Thunderstorm)) as u8,
        monday: tally_count(rts, t, Tally::Weekday(0)) as u8,
        tuesday: tally_count(rts, t, Tally::Weekday(1)) as u8,
        wednesday: tally_count(rts, t, Tally::Weekday(2)) as u8,
        thursday: tally_count(rts, t, Tally::Weekday(3)) as u8,
        friday: tally_count(rts, t, Tally::Weekday(4)) as u8,
        saturday: tally_count(rts, t, Tally::Weekday(5)) as u8,
        sunday: tally_count(rts, t, Tally::Weekday(6)) as u8,
    }
}

/// How many of `rts` count in column `tally` at `time`, kept modulo 256.
fn count_column(rts: &Vec<ResearchTime>, time: TimeOfDay, tally: Tally) -> (res: u8)
    ensures
        res == tally_count(rts@, time, tally) as u8,
{
    let mut count: usize = 0;
    let mut i: usize = 0;
    while i < rts.len()
        invariant
            i <= rts.len(),
            count == tally_count(rts@.take(i as int), time, tally),
            count <= i,
        decreases rts.len() - i,
    {
        proof {
            assert(rts@.take(i + 1).drop_last() =~= rts@.take(i as int));
        }
        let rt = &rts[i];
        let hit = rt.is_within(time) && match tally {
            Tally::All => true,
            Tally::Weather(w) => rt.weather == w,
            Tally::Weekday(d) => rt.start.weekday() == d,
        };
        if hit {
            count = count + 1;
        }
        i = i + 1;
    }
    proof {
        assert(rts@.take(rts.len() as int) =~= rts@);
    }
    count as u8
}

/// The count of `tally_count` is the number of research times that its column keeps,
/// for any predicate `keep` that holds of a research time exactly when it counts.
proof fn lemma_count_is_filter(
    rts: Seq<ResearchTime>,
    time: TimeOfDay,
    tally: Tally,
    keep: spec_fn(ResearchTime) -> bool,
)
    requires
        forall|rt: ResearchTime| #[trigger] keep(rt) == counts_in(rt, time, tally),
    ensures
        tally_count(rts, time, tally) == rts.filter(keep).len(),
    decreases rts.len(),
{
    reveal(Seq::filter);
    if rts.len() > 0 {
        lemma_count_is_filter(rts.drop_last(), time, tally, keep);
        assert(keep(rts.last()) == counts_in(rts.last(), time, tally));
    }
}

/// The research-time table: for each minute from 06:00 to 21:00, how many research times
/// include it, in all, by weather and by the weekday of their start.
pub fn research_time_lines(rts: &Vec<ResearchTime>) -> (res: Vec<TimeLine>)
    ensures
        res@.len() == RESEARCH_MINUTES,
        forall|i: int| 0 <= i < RESEARCH_MINUTES ==> #[trigger] res@[i] == time_line(rts@, i),
        forall|i: int|
            #![trigger res@[i]]
            0 <= i < RESEARCH_MINUTES ==> res@[i].time == (TimeOfDay {
                secs: ((FIRST_RESEARCH_MINUTE + i) * 60) as u32,
                nanos: 0,
            }),
        forall|i: int|
            #![trigger res@[i]]
            0 <= i < RESEARCH_MINUTES ==> {
            &&& res@[i].total == rts@.filter(|rt: ResearchTime| within_research_time(rt, res@[i].time)).len() as u8
            &&& res@[i].sunny == rts@.filter(|rt: ResearchTime| within_research_time(rt, res@[i].time) && rt.weather == Weather::Sunny).len() as u8
            &&& res@[i].rain == rts@.filter(|rt: ResearchTime| within_research_time(rt, res@[i].time) && rt.weather == Weather::Rain).len() as u8
            &&& res@[i].on_off_rain == rts@.filter(|rt: ResearchTime| within_research_time(rt, res@[i].time) && rt.weather == Weather::OnOffRain).len() as u8
            &&& res@[i].cloudy == rts@.filter(|rt: ResearchTime| within_research_time(rt, res@[i].time) && rt.weather == Weather::Cloudy).len() as u8
            &&& res@[i].thunderstorm == rts@.filter(|rt: ResearchTime| within_research_time(rt, res@[i].time) && rt.weather == Weather::Thunderstorm).len() as u8
            &&& res@[i].monday == rts@.filter(|rt: ResearchTime| within_research_time(rt, res@[i].time) && weekday_index(rt.start) == 0).len() as u8
            &&& res@[i].tuesday == rts@.filter(|rt: ResearchTime| within_research_time(rt, res@[i].time) && weekday_index(rt.start) == 1).len() as u8
            &&& res@[i].wednesday == rts@.filter(|rt: ResearchTime| within_research_time(rt, res@[i].time) && weekday_index(rt.start) == 2).len() as u8
            &&& res@[i].thursday == rts@.filter(|rt: ResearchTime| within_research_time(rt, res@[i].time) && weekday_index(rt.start) == 3).len() as u8
            &&& res@[i].friday == rts@.filter(|rt: ResearchTime| within_research_time(rt, res@[i].time) && weekday_index(rt.start) == 4).len() as u8
            &&& res@[i].saturday == rts@.filter(|rt: ResearchTime| within_research_time(rt, res@[i].time) && weekday_index(rt.start) == 5).len() as u8
            &&& res@[i].sunday == rts@.filter(|rt: ResearchTime| within_research_time(rt, res@[i].time) && weekday_index(rt.start) == 6).len() as u8
            },
{
    let mut lines: Vec<TimeLine> = Vec::new();
    let mut i: usize = 0;
    while i < RESEARCH_MINUTES
        invariant
            i <= RESEARCH_MINUTES,
            lines@.len() == i,
            forall|j: int| 0 <= j < i ==> #[trigger] lines@[j] == time_line(rts@, j),
        decreases RESEARCH_MINUTES - i,
    {
        let m: u32 = (i + FIRST_RESEARCH_MINUTE) as u32;
        let t = TimeOfDay::from_hour_minute(m / 60, m % 60);
        assert(t == row_time(i as int));
        let line = TimeLine {
            time: t,
            total: count_column(rts, t, Tally::All),
            sunny: count_column(rts, t, Tally::Weather(Weather::Sunny)),
            rain: count_column(rts, t, Tally::Weather(Weather::Rain)),
            on_off_rain: count_column(rts, t, Tally::Weather(Weather::OnOffRain)),
            cloudy: count_column(rts, t, Tally::Weather(Weather::Cloudy)),
            thunderstorm: count_column(rts, t, Tally::Weather(Weather::Thunderstorm)),
            monday: count_column(rts, t, Tally::Weekday(0)),
            tuesday: count_column(rts, t, Tally::Weekday(1)),
            wednesday: count_column(rts, t, Tally::Weekday(2)),
            thursday: count_column(rts, t, Tally::Weekday(3)),
            friday: count_column(rts, t, Tally::Weekday(4)),
            saturday: count_column(rts, t, Tally::Weekday(5)),
            sunday: count_column(rts, t, Tally::Weekday(6)),
        };
        lines.push(line);
        i = i + 1;
    }
    assert forall|i: int| 0 <= i < RESEARCH_MINUTES implies {
        &&& lines@[i].total == rts@.filter(|rt: ResearchTime| within_research_time(rt, lines@[i].time)).len() as u8
        &&& lines@[i].sunny == rts@.filter(|rt: ResearchTime| within_research_time(rt, lines@[i].time) && rt.weather == Weather::Sunny).len() as u8
        &&& lines@[i].rain == rts@.filter(|rt: ResearchTime| within_research_time(rt, lines@[i].time) && rt.weather == Weather::Rain).len() as u8
        &&& lines@[i].on_off_rain == rts@.filter(|rt: ResearchTime| within_research_time(rt, lines@[i].time) && rt.weather == Weather::OnOffRain).len() as u8
        &&& lines@[i].cloudy == rts@.filter(|rt: ResearchTime| within_research_time(rt, lines@[i].time) && rt.weather == Weather::Cloudy).len() as u8
        &&& lines@[i].thunderstorm == rts@.filter(|rt: ResearchTime| within_research_time(rt, lines@[i].time) && rt.weather == Weather::Thunderstorm).len() as u8
        &&& lines@[i].monday == rts@.filter(|rt: ResearchTime| within_research_time(rt, lines@[i].time) && weekday_index(rt.start) == 0).len() as u8
        &&& lines@[i].tuesday == rts@.filter(|rt: ResearchTime| within_research_time(rt, lines@[i].time) && weekday_index(rt.start) == 1).len() as u8
        &&& lines@[i].wednesday == rts@.filter(|rt: ResearchTime| within_research_time(rt, lines@[i].time) && weekday_index(rt.start) == 2).len() as u8
        &&& lines@[i].thursday == rts@.filter(|rt: ResearchTime| within_research_time(rt, lines@[i].time) && weekday_index(rt.start) == 3).len() as u8
        &&& lines@[i].friday == rts@.filter(|rt: ResearchTime| within_research_time(rt, lines@[i].time) && weekday_index(rt.start) == 4).len() as u8
        &&& lines@[i].saturday == rts@.filter(|rt: ResearchTime| within_research_time(rt, lines@[i].time) && weekday_index(rt.start) == 5).len() as u8
        &&& lines@[i].sunday == rts@.filter(|rt: ResearchTime| within_research_time(rt, lines@[i].time) && weekday_index(rt.start) == 6).len() as u8
    } by {
        let t = lines@[i].time;
        lemma_count_is_filter(rts@, t, Tally::All, |rt: ResearchTime| within_research_time(rt, t));
        lemma_count_is_filter(rts@, t, Tally::Weather(Weather::Sunny), |rt: ResearchTime| within_research_time(rt, t) && rt.weather == Weather::Sunny);
        lemma_count_is_filter(rts@, t, Tally::Weather(Weather::Rain), |rt: ResearchTime| within_research_time(rt, t) && rt.weather == Weather::Rain);
        lemma_count_is_filter(rts@, t, Tally::Weather(Weather::OnOffRain), |rt: ResearchTime| within_research_time(rt, t) && rt.weather == Weather::OnOffRain);
        lemma_count_is_filter(rts@, t, Tally::Weather(Weather::Cloudy), |rt: ResearchTime| within_research_time(rt, t) && rt.weather == Weather::Cloudy);
        lemma_count_is_filter(rts@, t, Tally::Weather(Weather::Thunderstorm), |rt: ResearchTime| within_research_time(rt, t) && rt.weather == Weather::Thunderstorm);
        lemma_count_is_filter(rts@, t, Tally::Weekday(0), |rt: ResearchTime| within_research_time(rt, t) && weekday_index(rt.start) == 0);
        lemma_count_is_filter(rts@, t, Tally::Weekday(1), |rt: ResearchTime| within_research_time(rt, t) && weekday_index(rt.start) == 1);
        lemma_count_is_filter(rts@, t, Tally::Weekday(2), |rt: ResearchTime| within_research_time(rt, t) && weekday_index(rt.start) == 2);
        lemma_count_is_filter(rts@, t, Tally::Weekday(3), |rt: ResearchTime| within_research_time(rt, t) && weekday_index(rt.start) == 3);
        lemma_count_is_filter(rts@, t, Tally::Weekday(4), |rt: ResearchTime| within_research_time(rt, t) && weekday_index(rt.start) == 4);
        lemma_count_is_filter(rts@, t, Tally::Weekday(5), |rt: ResearchTime| within_research_time(rt, t) && weekday_index(rt.start) == 5);
        lemma_count_is_filter(rts@, t, Tally::Weekday(6), |rt: ResearchTime| within_research_time(rt, t) && weekday_index(rt.start) == 6);
    }
    lines
}

/// At any clock time, the research times counted in all number those counted under each
/// weather together, and also those counted under each weekday together.
pub proof fn lemma_tallies_add_up(rts: Seq<ResearchTime>, time: TimeOfDay)
    ensures
        tally_count(rts, time, Tally::All) == tally_count(rts, time, Tally::Weather(Weather::Sunny))
            + tally_count(rts, time, Tally::Weather(Weather::Rain)) + tally_count(
            rts,
            time,
            Tally::Weather(Weather::OnOffRain),
        ) + tally_count(rts, time, Tally::Weather(Weather::Cloudy)) + tally_count(
            rts,
            time,
            Tally::Weather(Weather::Thunderstorm),
        ),
        tally_count(rts, time, Tally::All) == tally_count(rts, time, Tally::Weekday(0))
            + tally_count(rts, time, Tally::Weekday(1)) + tally_count(rts, time, Tally::Weekday(2))
            + tally_count(rts, time, Tally::Weekday(3)) + tally_count(rts, time, Tally::Weekday(4))
            + tally_count(rts, time, Tally::Weekday(5)) + tally_count(rts, time, Tally::Weekday(6)),
    decreases rts.len(),
{
    if rts.len() > 0 {
        lemma_tallies_add_up(rts.drop_last(), time);
        let w = weekday_index(rts.last().start);
        assert(0 <= w < 7);
    }
}

} // verus!
