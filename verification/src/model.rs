use vstd::prelude::*;
use vstd::string::StringExecFns;

use crate::clock::{
    DateTime, NANOS_PER_SECOND, TimeOfDay, earlier, earlier_in_day, lemma_minutes_grow, minutes_between, time_of,
    valid_moment,
};
use crate::text::{concat3, same_text};

verus! {

/// A logged time of a QR code: a moment known exactly (`start == end`) or only to lie
/// within the window from `start` to `end`. Two timestamps compare by `start` alone.
#[derive(Clone, Copy, Debug)]
pub struct Timestamp {
    pub start: DateTime,
    pub end: DateTime,
}

impl Timestamp {
    /// Whether the moment is known exactly.
    pub fn is_exact(&self) -> (res: bool)
        ensures
            res == (self.start == self.end),
    {
        self.start.secs == self.end.secs && self.start.nanos == self.end.nanos
    }
}

/// A timestamp together with what was recorded with it.
pub struct DataTimestamp {
    pub timestamp: Timestamp,
    pub is_in: bool,
    pub parked: Option<bool>,
    pub people_in_car: Option<u8>,
    pub activities: Vec<Activity>,
}

/// The mathematical value of a [`DataTimestamp`].
pub struct DataTimestampView {
    pub timestamp: Timestamp,
    pub is_in: bool,
    pub parked: Option<bool>,
    pub people_in_car: Option<u8>,
    pub activities: Seq<Activity>,
}

impl DeepView for DataTimestamp {
    type V = DataTimestampView;

    open spec fn deep_view(&self) -> DataTimestampView {
        DataTimestampView {
            timestamp: self.timestamp,
            is_in: self.is_in,
            parked: self.parked,
            people_in_car: self.people_in_car,
            activities: self.activities@,
        }
    }
}

/// A copy of `v`.
pub fn copy_activities(v: &Vec<Activity>) -> (res: Vec<Activity>)
    ensures
        res@ == v@,
{
    let mut res: Vec<Activity> = Vec::new();
    let mut i: usize = 0;
    while i < v.len()
        invariant
            i <= v.len(),
            res@ == v@.take(i as int),
        decreases v.len() - i,
    {
        res.push(v[i]);
        i = i + 1;
        assert(res@ =~= v@.take(i as int));
    }
    assert(res@ =~= v@);
    res
}

impl DataTimestamp {
    /// A copy of this record.
    pub fn duplicate(&self) -> (res: DataTimestamp)
        ensures
            res.deep_view() == self.deep_view(),
    {
        DataTimestamp {
            timestamp: self.timestamp,
            is_in: self.is_in,
            parked: self.parked,
            people_in_car: self.people_in_car,
            activities: copy_activities(&self.activities),
        }
    }
}

/// What people do at Jordan Pond.
#[derive(Clone, Copy, Debug, PartialEq, Eq, Structural)]
pub enum Activity {
    JordanPond,
    JordanPondHouse,
    Trails,
}

/// The activity that the text `s` names, if it names one.
pub open spec fn activity_named(s: Seq<char>) -> Option<Activity> {
    if s == "Jordan Pond House"@ {
        Some(Activity::JordanPondHouse)
    } else if s == "Other Walking Trails"@ {
        Some(Activity::Trails)
    } else if s == "Jordan Pond"@ {
        Some(Activity::JordanPond)
    } else {
        None
    }
}

impl Activity {
    /// Reads an activity from its name; any other text is refused with
    /// `'<text>' is not a valid Activity`.
    pub fn parse(s: &str) -> (res: Result<Activity, String>)
        ensures
            res is Ok <==> activity_named(s@) is Some,
            res matches Ok(a) ==> activity_named(s@) == Some(a),
            res matches Err(msg) ==> msg@ == "'"@ + s@ + "' is not a valid Activity"@,
            (res matches Ok(x) && x == Activity::JordanPond) <==> s@ == "Jordan Pond"@,
            (res matches Ok(x) && x == Activity::JordanPondHouse) <==> s@ == "Jordan Pond House"@,
            (res matches Ok(x) && x == Activity::Trails) <==> s@ == "Other Walking Trails"@,
    {
        proof {
            reveal_strlit("Jordan Pond");
            reveal_strlit("Jordan Pond House");
            reveal_strlit("Other Walking Trails");
            assert("Jordan Pond"@.len() == 11);
            assert("Jordan Pond House"@.len() == 17);
            assert("Other Walking Trails"@.len() == 20);
        }
        if same_text(s, "Jordan Pond House") {
            Ok(Activity::JordanPondHouse)
        } else if same_text(s, "Other Walking Trails") {
            Ok(Activity::Trails)
        } else if same_text(s, "Jordan Pond") {
            Ok(Activity::JordanPond)
        } else {
            Err(concat3("'", s, "' is not a valid Activity"))
        }
    }
}

impl std::str::FromStr for Activity {
    type Err = String;

    fn from_str(s: &str) -> (res: Result<Self, Self::Err>)
        ensures
            res is Ok <==> activity_named(s@) is Some,
            res matches Ok(a) ==> activity_named(s@) == Some(a),
            res matches Err(msg) ==> msg@ == "'"@ + s@ + "' is not a valid Activity"@,
    {
        Activity::parse(s)
    }
}

/// The weather at Jordan Pond.
#[derive(Clone, Copy, Debug, PartialEq, Eq, Structural)]
pub enum Weather {
    Sunny,
    Rain,
    OnOffRain,
    Cloudy,
    Thunderstorm,
}

/// The weather that the text `s` names, if it names one.
pub open spec fn weather_named(s: Seq<char>) -> Option<Weather> {
    if s == "Sunny"@ {
        Some(Weather::Sunny)
    } else if s == "Rain"@ {
        Some(Weather::Rain)
    } else if s == "On and Off Rain"@ {
        Some(Weather::OnOffRain)
    } else if s == "Cloudy"@ {
        Some(Weather::Cloudy)
    } else if s == "Thunderstorm"@ {
        Some(Weather::Thunderstorm)
    } else {
        None
    }
}

/// The name under which a weather is written.
pub open spec fn weather_name(w: Weather) -> Seq<char> {
    match w {
        Weather::Sunny => "Sunny"@,
        Weather::Rain => "Rain"@,
        Weather::OnOffRain => "On and Off Rain"@,
        Weather::Cloudy => "Cloudy"@,
        Weather::Thunderstorm => "Thunderstorm"@,
    }
}

impl Weather {
    /// Reads a weather from its name; any other text is refused with
    /// `'<text>' is not a valid weather`.
    pub fn parse(s: &str) -> (res: Result<Weather, String>)
        ensures
            res is Ok <==> weather_named(s@) is Some,
            res matches Ok(w) ==> weather_named(s@) == Some(w),
            res matches Err(msg) ==> msg@ == "'"@ + s@ + "' is not a valid weather"@,
            (res matches Ok(x) && x == Weather::Sunny) <==> s@ == "Sunny"@,
            (res matches Ok(x) && x == Weather::Rain) <==> s@ == "Rain"@,
            (res matches Ok(x) && x == Weather::OnOffRain) <==> s@ == "On and Off Rain"@,
            (res matches Ok(x) && x == Weather::Cloudy) <==> s@ == "Cloudy"@,
            (res matches Ok(x) && x == Weather::Thunderstorm) <==> s@ == "Thunderstorm"@,
    {
        proof {
            reveal_strlit("Sunny");
            reveal_strlit("Rain");
            reveal_strlit("On and Off Rain");
            reveal_strlit("Cloudy");
            reveal_strlit("Thunderstorm");
            assert("Sunny"@.len() == 5);
            assert("Rain"@.len() == 4);
            assert("On and Off Rain"@.len() == 15);
            assert("Cloudy"@.len() == 6);
            assert("Thunderstorm"@.len() == 12);
        }
        if same_text(s, "Sunny") {
            Ok(Weather::Sunny)
        } else if same_text(s, "Rain") {
            Ok(Weather::Rain)
        } else if same_text(s, "On and Off Rain") {
            Ok(Weather::OnOffRain)
        } else if same_text(s, "Cloudy") {
            Ok(Weather::Cloudy)
        } else if same_text(s, "Thunderstorm") {
            Ok(Weather::Thunderstorm)
        } else {
            Err(concat3("'", s, "' is not a valid weather"))
        }
    }

    /// The name under which this weather is written (its display text).
    pub fn name(&self) -> (res: String)
        ensures
            res@ == weather_name(*self),
            *self == Weather::Sunny ==> res@ == "Sunny"@,
            *self == Weather::Rain ==> res@ == "Rain"@,
            *self == Weather::OnOffRain ==> res@ == "On and Off Rain"@,
            *self == Weather::Cloudy ==> res@ == "Cloudy"@,
            *self == Weather::Thunderstorm ==> res@ == "Thunderstorm"@,
    {
        match self {
            Weather::Sunny => String::from_str("Sunny"),
            Weather::Rain => String::from_str("Rain"),
            Weather::OnOffRain => String::from_str("On and Off Rain"),
            Weather::Cloudy => String::from_str("Cloudy"),
            Weather::Thunderstorm => String::from_str("Thunderstorm"),
        }
    }
}

impl std::str::FromStr for Weather {
    type Err = String;

    fn from_str(s: &str) -> (res: Result<Self, Self::Err>)
        ensures
            res is Ok <==> weather_named(s@) is Some,
            res matches Ok(w) ==> weather_named(s@) == Some(w),
            res matches Err(msg) ==> msg@ == "'"@ + s@ + "' is not a valid weather"@,
    {
        Weather::parse(s)
    }
}

/// Every weather's name reads back as that weather.
pub proof fn lemma_weather_name_round_trip(w: Weather)
    ensures
        weather_named(weather_name(w)) == Some(w),
{
    reveal_strlit("Sunny");
    reveal_strlit("Rain");
    reveal_strlit("On and Off Rain");
    reveal_strlit("Cloudy");
    reveal_strlit("Thunderstorm");
    // The five names differ in length, so no name reads as another weather.
    assert("Sunny"@.len() == 5);
    assert("Rain"@.len() == 4);
    assert("On and Off Rain"@.len() == 15);
    assert("Cloudy"@.len() == 6);
    assert("Thunderstorm"@.len() == 12);
}

/// A text that reads as a weather is that weather's name.
pub proof fn lemma_weather_parse_round_trip(s: Seq<char>)
    requires
        weather_named(s) is Some,
    ensures
        weather_name(weather_named(s).unwrap()) == s,
{
}

/// Data collected from a visit.
pub struct Visit {
    pub in_time: DateTime,
    pub out_time: DateTime,
    pub parked: bool,
    pub people_in_car: u8,
    pub activities: Vec<Activity>,
    pub weather: Weather,
}

/// The mathematical value of a [`Visit`].
pub struct VisitView {
    pub in_time: DateTime,
    pub out_time: DateTime,
    pub parked: bool,
    pub people_in_car: u8,
    pub activities: Seq<Activity>,
    pub weather: Weather,
}

impl DeepView for Visit {
    type V = VisitView;

    open spec fn deep_view(&self) -> VisitView {
        VisitView {
            in_time: self.in_time,
            out_time: self.out_time,
            parked: self.parked,
            people_in_car: self.people_in_car,
            activities: self.activities@,
            weather: self.weather,
        }
    }
}

impl Visit {
    /// The length of the visit in whole minutes.
    pub fn duration(&self) -> (res: usize)
        ensures
            res == minutes_between(self.in_time, self.out_time) as usize,
    {
        self.in_time.minutes_until_unsigned(&self.out_time)
    }
}

/// A visit that was fully observed, or that went on past the observation window, so
/// that its end is only known to lie between `out_time_start` and `out_time_end`.
#[derive(Clone, Copy, Debug, PartialEq, Eq, Structural)]
pub struct CensoredVisit {
    pub parked: bool,
    pub in_time: DateTime,
    pub out_time_start: DateTime,
    pub out_time_end: DateTime,
}

impl CensoredVisit {
    /// The least possible length of the visit in whole minutes.
    pub fn min_duration(&self) -> (res: usize)
        ensures
            res == minutes_between(self.in_time, self.out_time_start) as usize,
    {
        self.in_time.minutes_until_unsigned(&self.out_time_start)
    }

    /// The greatest possible length of the visit in whole minutes.
    pub fn max_duration(&self) -> (res: usize)
        ensures
            res == minutes_between(self.in_time, self.out_time_end) as usize,
    {
        self.in_time.minutes_until_unsigned(&self.out_time_end)
    }
}

/// A censored visit is no shorter at least than at most: for valid moments, an exit
/// window that opens no earlier than the entrance and closes no earlier than it opens,
/// the least length in minutes is not negative and at most the greatest, the two being
/// equal when the window is a single moment. The unsigned lengths keep that order
/// whenever the greatest fits in `usize`. This holds when the entrance lies on a whole
/// second, and otherwise when no leap second is involved.
pub proof fn lemma_censored_durations_ordered(c: CensoredVisit)
    requires
        valid_moment(c.in_time),
        valid_moment(c.out_time_start),
        valid_moment(c.out_time_end),
        !earlier(c.out_time_start, c.in_time),
        !earlier(c.out_time_end, c.out_time_start),
        c.in_time.nanos == 0 || (c.in_time.nanos < NANOS_PER_SECOND && c.out_time_start.nanos
            < NANOS_PER_SECOND && c.out_time_end.nanos < NANOS_PER_SECOND),
    ensures
        0 <= minutes_between(c.in_time, c.out_time_start) <= minutes_between(
            c.in_time,
            c.out_time_end,
        ),
        c.out_time_start == c.out_time_end ==> minutes_between(c.in_time, c.out_time_start)
            == minutes_between(c.in_time, c.out_time_end),
        minutes_between(c.in_time, c.out_time_end) <= usize::MAX ==> minutes_between(
            c.in_time,
            c.out_time_start,
        ) as usize <= minutes_between(c.in_time, c.out_time_end) as usize,
{
    lemma_minutes_grow(c.in_time, c.out_time_start, c.out_time_end);
}

/// A period of research, with its weather.
#[derive(Clone, Copy, Debug, PartialEq, Eq, Structural)]
pub struct ResearchTime {
    pub start: DateTime,
    pub end: DateTime,
    pub weather: Weather,
}

/// Whether the clock time `time` lies within the clock times of `rt`'s start and end.
pub open spec fn within_research_time(rt: ResearchTime, time: TimeOfDay) -> bool {
    !earlier_in_day(time, time_of(rt.start)) && !earlier_in_day(time_of(rt.end), time)
}

impl ResearchTime {
    /// Whether `time` lies between the clock times of the start and the end, both included.
    pub fn is_within(&self, time: TimeOfDay) -> (res: bool)
        ensures
            res == within_research_time(*self, time),
            res == ({
                let lo = time_of(self.start);
                let hi = time_of(self.end);
                &&& lo.secs < time.secs || (lo.secs == time.secs && lo.nanos <= time.nanos)
                &&& time.secs < hi.secs || (time.secs == hi.secs && time.nanos <= hi.nanos)
            }),
    {
        let lo = self.start.time();
        let hi = self.end.time();
        !time.is_earlier(&lo) && !hi.is_earlier(&time)
    }
}

} // verus!
