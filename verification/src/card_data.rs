use vstd::prelude::*;

use crate::activity_list::{listed_activities, parse_activity_list};
use crate::clock::{DateTime, earlier};
use crate::model::{
    CensoredVisit, DataTimestamp, DataTimestampView, ResearchTime, Timestamp, Visit, VisitView,
    Weather,
};
use crate::pairing::{
    by_start, calculate_censored_visits, calculate_visits, censored_visits_of, find_incomplete_visit,
    first_incomplete, incomplete_at, lemma_by_start_len, lemma_first_incomplete,
    lemma_visits_are_censored_visits, visits_of,
};

verus! {

/// A row of the "in" sheet: a card handed out at the entrance.
#[derive(Clone, Copy, Debug, PartialEq, Eq, Structural)]
pub struct InLine {
    pub code: usize,
    pub time: DateTime,
}

/// A row of the "out" sheet: a card collected at the exit, with what was asked there.
pub struct OutLine {
    pub code: usize,
    pub time: DateTime,
    pub parked: bool,
    pub people_in_car: u8,
    pub activities: String,
}

impl OutLine {
    /// A copy of this row.
    pub fn duplicate(&self) -> (res: OutLine)
        ensures
            res == *self,
    {
        OutLine {
            code: self.code,
            time: self.time,
            parked: self.parked,
            people_in_car: self.people_in_car,
            activities: self.activities.clone(),
        }
    }
}

/// Whether a card was missing at the end of the day; `No` holds the time the
/// observers left.
#[derive(Clone, Copy, Debug, PartialEq, Eq, Structural)]
pub enum Missing {
    Yes,
    No(DateTime),
}

/// The latest time among the entrance rows, if there is one.
pub open spec fn latest_in(lines: Seq<InLine>) -> Option<DateTime>
    decreases lines.len(),
{
    if lines.len() == 0 {
        None
    } else {
        let t = lines.last().time;
        match latest_in(lines.drop_last()) {
            None => Some(t),
            Some(u) => Some(
                if earlier(u, t) {
                    t
                } else {
                    u
                },
            ),
        }
    }
}

/// The latest time among the exit rows, if there is one.
pub open spec fn latest_out(lines: Seq<OutLine>) -> Option<DateTime>
    decreases lines.len(),
{
    if lines.len() == 0 {
        None
    } else {
        let t = lines.last().time;
        match latest_out(lines.drop_last()) {
            None => Some(t),
            Some(u) => Some(
                if earlier(u, t) {
                    t
                } else {
                    u
                },
            ),
        }
    }
}

/// Whether the card was last seen going in: there are entrances and exits and the latest
/// entrance comes after the latest exit.
pub open spec fn still_inside(ins: Seq<InLine>, outs: Seq<OutLine>) -> bool {
    match (latest_in(ins), latest_out(outs)) {
        (Some(a), Some(b)) => earlier(b, a),
        _ => false,
    }
}

/// The exit record of a card still inside at the end of the day: it left some time
/// between the last entrance (if the card went missing) or the observers' leaving, and
/// `day_end`.
pub open spec fn leftover_record(ins: Seq<InLine>, missing: Missing, day_end: DateTime) -> DataTimestampView {
    DataTimestampView {
        timestamp: Timestamp {
            start: match missing {
                Missing::Yes => latest_in(ins).unwrap(),
                Missing::No(t) => t,
            },
            end: day_end,
        },
        is_in: false,
        parked: None,
        people_in_car: None,
        activities: Seq::empty(),
    }
}

/// The record of an entrance row.
pub open spec fn in_record(line: InLine) -> DataTimestampView {
    DataTimestampView {
        timestamp: Timestamp { start: line.time, end: line.time },
        is_in: true,
        parked: None,
        people_in_car: None,
        activities: Seq::empty(),
    }
}

/// The record of an exit row.
pub open spec fn out_record(line: OutLine) -> DataTimestampView {
    DataTimestampView {
        timestamp: Timestamp { start: line.time, end: line.time },
        is_in: false,
        parked: Some(line.parked),
        people_in_car: Some(line.people_in_car),
        activities: listed_activities(line.activities@)->Ok_0,
    }
}

/// Whether every exit row's activity list reads.
pub open spec fn activities_readable(outs: Seq<OutLine>) -> bool {
    forall|k: int| 0 <= k < outs.len() ==> (#[trigger] listed_activities(outs[k].activities@)) is Ok
}

/// All records of one card in one day: the leftover exit (when the card is still inside),
/// then the entrances, then the exits, each in the order of the rows.
pub open spec fn card_records(
    ins: Seq<InLine>,
    outs: Seq<OutLine>,
    missing: Missing,
    day_end: DateTime,
) -> Seq<DataTimestampView> {
    let leftover = if still_inside(ins, outs) {
        seq![leftover_record(ins, missing, day_end)]
    } else {
        Seq::empty()
    };
    leftover + Seq::new(ins.len(), |k: int| in_record(ins[k])) + Seq::new(
        outs.len(),
        |k: int| out_record(outs[k]),
    )
}

/// The latest entrance time is that of one of the entrance rows, and no entrance row
/// comes after it; there is one exactly when there are entrance rows.
pub proof fn lemma_latest_in(ins: Seq<InLine>)
    ensures
        latest_in(ins) is None <==> ins.len() == 0,
        latest_in(ins) matches Some(t) ==> (exists|k: int|
            0 <= k < ins.len() && (#[trigger] ins[k]).time == t) && (forall|k: int|
            0 <= k < ins.len() ==> !earlier(t, (#[trigger] ins[k]).time)),
    decreases ins.len(),
{
    if ins.len() > 0 {
        let rest = ins.drop_last();
        lemma_latest_in(rest);
        let n = ins.len() - 1;
        assert forall|k: int| 0 <= k < n implies (#[trigger] ins[k]) == rest[k] by {}
        if let Some(t) = latest_in(ins) {
            match latest_in(rest) {
                None => {
                    assert(ins[n].time == t);
                },
                Some(u) => {
                    let j = choose|k: int| 0 <= k < rest.len() && (#[trigger] rest[k]).time == u;
                    assert(ins[j] == rest[j]);
                    assert(ins[n].time == ins.last().time);
                },
            }
        }
    }
}

/// The latest exit time is that of one of the exit rows, and no exit row comes after it;
/// there is one exactly when there are exit rows.
pub proof fn lemma_latest_out(outs: Seq<OutLine>)
    ensures
        latest_out(outs) is None <==> outs.len() == 0,
        latest_out(outs) matches Some(t) ==> (exists|k: int|
            0 <= k < outs.len() && (#[trigger] outs[k]).time == t) && (forall|k: int|
            0 <= k < outs.len() ==> !earlier(t, (#[trigger] outs[k]).time)),
    decreases outs.len(),
{
    if outs.len() > 0 {
        let rest = outs.drop_last();
        lemma_latest_out(rest);
        let n = outs.len() - 1;
        assert forall|k: int| 0 <= k < n implies (#[trigger] outs[k]) == rest[k] by {}
        if let Some(t) = latest_out(outs) {
            match latest_out(rest) {
                None => {
                    assert(outs[n].time == t);
                },
                Some(u) => {
                    let j = choose|k: int| 0 <= k < rest.len() && (#[trigger] rest[k]).time == u;
                    assert(outs[j] == rest[j]);
                    assert(outs[n].time == outs.last().time);
                },
            }
        }
    }
}

/// A card is still inside at the end of the day exactly when it has exit rows and some
/// entrance row comes after every one of them.
pub proof fn lemma_still_inside(ins: Seq<InLine>, outs: Seq<OutLine>)
    ensures
        still_inside(ins, outs) <==> (outs.len() > 0 && exists|j: int|
            #![trigger ins[j]]
            0 <= j < ins.len() && forall|k: int|
                0 <= k < outs.len() ==> earlier((#[trigger] outs[k]).time, ins[j].time)),
{
    lemma_latest_in(ins);
    lemma_latest_out(outs);
    if still_inside(ins, outs) {
        let a = latest_in(ins)->Some_0;
        let b = latest_out(outs)->Some_0;
        let j = choose|k: int| 0 <= k < ins.len() && (#[trigger] ins[k]).time == a;
        assert forall|k: int| 0 <= k < outs.len() implies earlier(
            (#[trigger] outs[k]).time,
            ins[j].time,
        ) by {
            assert(!earlier(b, outs[k].time));
        }
    }
    if outs.len() > 0 && exists|j: int|
        #![trigger ins[j]]
        0 <= j < ins.len() && forall|k: int|
            0 <= k < outs.len() ==> earlier((#[trigger] outs[k]).time, ins[j].time) {
        let j = choose|j: int|
            #![trigger ins[j]]
            0 <= j < ins.len() && forall|k: int|
                0 <= k < outs.len() ==> earlier((#[trigger] outs[k]).time, ins[j].time);
        let a = latest_in(ins)->Some_0;
        let b = latest_out(outs)->Some_0;
        let kb = choose|k: int| 0 <= k < outs.len() && (#[trigger] outs[k]).time == b;
        assert(earlier(outs[kb].time, ins[j].time));
        assert(!earlier(a, ins[j].time));
    }
}

/// The latest entrance time.
fn find_latest_in(lines: &Vec<InLine>) -> (res: Option<DateTime>)
    ensures
        res == latest_in(lines@),
{
    let mut best: Option<DateTime> = None;
    let mut i: usize = 0;
    while i < lines.len()
        invariant
            i <= lines.len(),
            best == latest_in(lines@.take(i as int)),
        decreases lines.len() - i,
    {
        proof {
            assert(lines@.take(i + 1).drop_last() =~= lines@.take(i as int));
        }
        let t = lines[i].time;
        best = match best {
            None => Some(t),
            Some(u) => Some(
                if u.is_earlier(&t) {
                    t
                } else {
                    u
                },
            ),
        };
        i = i + 1;
    }
    proof {
        assert(lines@.take(lines.len() as int) =~= lines@);
    }
    best
}

/// The latest exit time.
fn find_latest_out(lines: &Vec<OutLine>) -> (res: Option<DateTime>)
    ensures
        res == latest_out(lines@),
{
    let mut best: Option<DateTime> = None;
    let mut i: usize = 0;
    while i < lines.len()
        invariant
            i <= lines.len(),
            best == latest_out(lines@.take(i as int)),
        decreases lines.len() - i,
    {
        proof {
            assert(lines@.take(i + 1).drop_last() =~= lines@.take(i as int));
        }
        let t = lines[i].time;
        best = match best {
            None => Some(t),
            Some(u) => Some(
                if u.is_earlier(&t) {
                    t
                } else {
                    u
                },
            ),
        };
        i = i + 1;
    }
    proof {
        assert(lines@.take(lines.len() as int) =~= lines@);
    }
    best
}

/// All records of one card in one day (see [`card_records`]).
pub fn calculate_data_timestamps(
    in_times: &Vec<InLine>,
    out_times: &Vec<OutLine>,
    missing: &Missing,
    day_end: &DateTime,
) -> (res: Vec<DataTimestamp>)
    requires
        activities_readable(out_times@),
    ensures
        res.deep_view() == card_records(in_times@, out_times@, *missing, *day_end),
        res@.len() == in_times@.len() + out_times@.len() + (if out_times@.len() > 0 && exists|
            j: int,
        |
            #![trigger in_times@[j]]
            0 <= j < in_times@.len() && forall|k: int|
                0 <= k < out_times@.len() ==> earlier(
                    (#[trigger] out_times@[k]).time,
                    in_times@[j].time,
                ) {
            1int
        } else {
            0int
        }),
        forall|k: int|
            #![trigger in_times@[k]]
            0 <= k < in_times@.len() ==> {
                let r = res@[res@.len() - in_times@.len() - out_times@.len() + k];
                &&& r.is_in
                &&& r.timestamp == (Timestamp { start: in_times@[k].time, end: in_times@[k].time })
                &&& r.parked is None && r.people_in_car is None && r.activities@.len() == 0
            },
        forall|k: int|
            #![trigger out_times@[k]]
            0 <= k < out_times@.len() ==> {
                let r = res@[res@.len() - out_times@.len() + k];
                &&& !r.is_in
                &&& r.timestamp == (Timestamp {
                    start: out_times@[k].time,
                    end: out_times@[k].time,
                })
                &&& r.parked == Some(out_times@[k].parked)
                &&& r.people_in_car == Some(out_times@[k].people_in_car)
                &&& r.activities@ == listed_activities(out_times@[k].activities@)->Ok_0
            },
        res@.len() > in_times@.len() + out_times@.len() ==> {
            let r = res@[0];
            &&& !r.is_in
            &&& r.timestamp.end == *day_end
            &&& r.parked is None && r.people_in_car is None && r.activities@.len() == 0
            &&& match *missing {
                Missing::Yes => (exists|j: int|
                    0 <= j < in_times@.len() && (#[trigger] in_times@[j]).time
                        == r.timestamp.start) && (forall|j: int|
                    0 <= j < in_times@.len() ==> !earlier(
                        r.timestamp.start,
                        (#[trigger] in_times@[j]).time,
                    )),
                Missing::No(t) => r.timestamp.start == t,
            }
        },
{
    let ghost spec_res = card_records(in_times@, out_times@, *missing, *day_end);
    let mut res: Vec<DataTimestamp> = Vec::new();
    let last_in = find_latest_in(in_times);
    let last_out = find_latest_out(out_times);
    let inside = match (last_in, last_out) {
        (Some(a), Some(b)) => b.is_earlier(&a),
        _ => false,
    };
    let ghost lead: int = if inside {
        1
    } else {
        0
    };
    if inside {
        let start = match missing {
            Missing::Yes => last_in.unwrap(),
            Missing::No(t) => *t,
        };
        res.push(
            DataTimestamp {
                timestamp: Timestamp { start, end: *day_end },
                is_in: false,
                parked: None,
                people_in_car: None,
                activities: Vec::new(),
            },
        );
    }
    assert(res.deep_view() =~= spec_res.take(lead));
    let mut i: usize = 0;
    while i < in_times.len()
        invariant
            i <= in_times.len(),
            spec_res == card_records(in_times@, out_times@, *missing, *day_end),
            lead == (if still_inside(in_times@, out_times@) {
                1int
            } else {
                0int
            }),
            res.deep_view() =~= spec_res.take(lead + i),
        decreases in_times.len() - i,
    {
        let t = in_times[i].time;
        let ghost before = res.deep_view();
        res.push(
            DataTimestamp {
                timestamp: Timestamp { start: t, end: t },
                is_in: true,
                parked: None,
                people_in_car: None,
                activities: Vec::new(),
            },
        );
        assert(res.deep_view() =~= before.push(in_record(in_times@[i as int])));
        assert(spec_res[lead + i] == in_record(in_times@[i as int]));
        i = i + 1;
        assert(res.deep_view() =~= spec_res.take(lead + i));
    }
    let mut j: usize = 0;
    while j < out_times.len()
        invariant
            j <= out_times.len(),
            spec_res == card_records(in_times@, out_times@, *missing, *day_end),
            activities_readable(out_times@),
            lead == (if still_inside(in_times@, out_times@) {
                1int
            } else {
                0int
            }),
            res.deep_view() =~= spec_res.take(lead + in_times.len() + j),
        decreases out_times.len() - j,
    {
        let line = &out_times[j];
        assert(listed_activities(out_times@[j as int].activities@) is Ok);
        let activities = match parse_activity_list(line.activities.as_str()) {
            Ok(v) => v,
            Err(_) => Vec::new(),
        };
        let ghost before = res.deep_view();
        res.push(
            DataTimestamp {
                timestamp: Timestamp { start: line.time, end: line.time },
                is_in: false,
                parked: Some(line.parked),
                people_in_car: Some(line.people_in_car),
                activities,
            },
        );
        assert(res.deep_view() =~= before.push(out_record(out_times@[j as int])));
        assert(spec_res[lead + in_times.len() + j] == out_record(out_times@[j as int]));
        j = j + 1;
        assert(res.deep_view() =~= spec_res.take(lead + in_times.len() + j));
    }
    assert(spec_res.take(lead + in_times.len() + out_times.len()) =~= spec_res);
    proof {
        lemma_still_inside(in_times@, out_times@);
        lemma_latest_in(in_times@);
        assert(res@.len() == res.deep_view().len());
        assert forall|i: int| 0 <= i < res@.len() implies (#[trigger] res@[i]).deep_view()
            == spec_res[i] by {}
    }
    res
}

/// The number of QR cards handed out each day; their codes run from 1 to this number.
pub const TOTAL_NUMBER_OF_CARDS: usize = 300;

/// The hours of card distribution of one day.
#[derive(Clone, Copy, Debug, PartialEq, Eq, Structural)]
pub struct CardDistributionTime {
    pub in_start_time: DateTime,
    pub out_start_time: DateTime,
    pub in_end_time: DateTime,
    pub out_end_time: DateTime,
}

/// What a day of card data yields.
pub struct CardDay {
    pub visits: Vec<Visit>,
    pub censored_visits: Vec<CensoredVisit>,
    pub in_timestamps: Vec<Timestamp>,
    pub out_timestamps: Vec<Timestamp>,
    pub research_time: ResearchTime,
}

/// Why a day of card data cannot be read.
pub enum DayFault {
    /// An exit row lists an activity that is not one; holds the reading error.
    InvalidActivity(String),
    /// A visit's exit, at this time, has no parking status.
    NoParkingRecord(DateTime),
    /// A visit's exit, at this time, has no head count.
    NoPeopleRecord(DateTime),
}

/// The mathematical value of a [`DayFault`].
pub enum DayFaultView {
    InvalidActivity(Seq<char>),
    NoParkingRecord(DateTime),
    NoPeopleRecord(DateTime),
}

impl DeepView for DayFault {
    type V = DayFaultView;

    open spec fn deep_view(&self) -> DayFaultView {
        match self {
            DayFault::InvalidActivity(m) => DayFaultView::InvalidActivity(m@),
            DayFault::NoParkingRecord(t) => DayFaultView::NoParkingRecord(*t),
            DayFault::NoPeopleRecord(t) => DayFaultView::NoPeopleRecord(*t),
        }
    }
}

/// Whether `code` names one of the cards.
pub open spec fn valid_code(code: usize) -> bool {
    1 <= code <= TOTAL_NUMBER_OF_CARDS
}

/// The first code, among the entrance rows and then the exit rows, that names no card.
pub open spec fn first_bad_code(ins: Seq<InLine>, outs: Seq<OutLine>) -> Option<usize> {
    if exists|k: int| 0 <= k < ins.len() && !valid_code(#[trigger] ins[k].code) {
        let k = choose|k: int|
            0 <= k < ins.len() && !valid_code(#[trigger] ins[k].code) && forall|j: int|
                0 <= j < k ==> valid_code(#[trigger] ins[j].code);
        Some(ins[k].code)
    } else if exists|k: int| 0 <= k < outs.len() && !valid_code(#[trigger] outs[k].code) {
        let k = choose|k: int|
            0 <= k < outs.len() && !valid_code(#[trigger] outs[k].code) && forall|j: int|
                0 <= j < k ==> valid_code(#[trigger] outs[j].code);
        Some(outs[k].code)
    } else {
        None
    }
}

/// The entrance rows of the card with code `code`, in order.
pub open spec fn ins_of_card(lines: Seq<InLine>, code: usize) -> Seq<InLine>
    decreases lines.len(),
{
    if lines.len() == 0 {
        Seq::empty()
    } else {
        let before = ins_of_card(lines.drop_last(), code);
        if lines.last().code == code {
            before.push(lines.last())
        } else {
            before
        }
    }
}

/// The exit rows of the card with code `code`, in order.
pub open spec fn outs_of_card(lines: Seq<OutLine>, code: usize) -> Seq<OutLine>
    decreases lines.len(),
{
    if lines.len() == 0 {
        Seq::empty()
    } else {
        let before = outs_of_card(lines.drop_last(), code);
        if lines.last().code == code {
            before.push(lines.last())
        } else {
            before
        }
    }
}

/// Whether the card with code `code` went missing: `missing_cards` lists it; otherwise
/// the observers left at `leave`.
pub open spec fn missing_of_card(missing_cards: Seq<usize>, code: usize, leave: DateTime) -> Missing {
    if missing_cards.contains(code) {
        Missing::Yes
    } else {
        Missing::No(leave)
    }
}

/// The first exit row, in order, whose activity list does not read.
pub open spec fn first_unreadable(outs: Seq<OutLine>) -> Option<int> {
    if exists|k: int| 0 <= k < outs.len() && (#[trigger] listed_activities(outs[k].activities@)) is Err {
        Some(
            choose|k: int|
                0 <= k < outs.len() && (#[trigger] listed_activities(outs[k].activities@)) is Err
                    && forall|j: int|
                    0 <= j < k ==> (#[trigger] listed_activities(outs[j].activities@)) is Ok,
        )
    } else {
        None
    }
}

/// The rows of one day, as they come from its sheets.
pub struct DaySheets {
    pub ins: Seq<InLine>,
    pub outs: Seq<OutLine>,
    pub missing_cards: Seq<usize>,
    pub distribution: CardDistributionTime,
    pub day_end: DateTime,
}

/// The records of the card with index `k` (code `k + 1`).
pub open spec fn records_of_card(d: DaySheets, k: int) -> Seq<DataTimestampView> {
    let code = (k + 1) as usize;
    card_records(
        ins_of_card(d.ins, code),
        outs_of_card(d.outs, code),
        missing_of_card(d.missing_cards, code, d.distribution.out_end_time),
        d.day_end,
    )
}

/// Why reading the card with index `k` fails, if it does: its first unreadable activity
/// list, or else the first visit whose exit lacks its parking status or head count.
pub open spec fn card_fault(d: DaySheets, k: int) -> Option<DayFaultView> {
    let outs = outs_of_card(d.outs, (k + 1) as usize);
    match first_unreadable(outs) {
        Some(j) => Some(
            DayFaultView::InvalidActivity(
                "'"@ + listed_activities(outs[j].activities@)->Err_0 + "' is not a valid Activity"@,
            ),
        ),
        None => {
            let sorted = by_start(records_of_card(d, k));
            match first_incomplete(sorted, sorted.len() as int) {
                Some(p) => if sorted[p].parked is None {
                    Some(DayFaultView::NoParkingRecord(sorted[p].timestamp.start))
                } else {
                    Some(DayFaultView::NoPeopleRecord(sorted[p].timestamp.start))
                },
                None => None,
            }
        },
    }
}

/// The first failure among the cards with index below `n`.
pub open spec fn first_card_fault(d: DaySheets, n: int) -> Option<DayFaultView>
    decreases n,
{
    if n <= 0 {
        None
    } else {
        match first_card_fault(d, n - 1) {
            Some(f) => Some(f),
            None => card_fault(d, n - 1),
        }
    }
}

/// Why reading the day fails, if it does: the first card (by code) that fails.
pub open spec fn day_fault(d: DaySheets) -> Option<DayFaultView> {
    first_card_fault(d, TOTAL_NUMBER_OF_CARDS as int)
}

/// The timestamps of the entrance records, in order.
pub open spec fn in_stamps(recs: Seq<DataTimestampView>) -> Seq<Timestamp>
    decreases recs.len(),
{
    if recs.len() == 0 {
        Seq::empty()
    } else {
        let before = in_stamps(recs.drop_last());
        if recs.last().is_in {
            before.push(recs.last().timestamp)
        } else {
            before
        }
    }
}

/// The timestamps of the exit records, in order.
pub open spec fn out_stamps(recs: Seq<DataTimestampView>) -> Seq<Timestamp>
    decreases recs.len(),
{
    if recs.len() == 0 {
        Seq::empty()
    } else {
        let before = out_stamps(recs.drop_last());
        if !recs.last().is_in {
            before.push(recs.last().timestamp)
        } else {
            before
        }
    }
}

/// The visits of the cards with index below `n`, card after card.
pub open spec fn day_visits(d: DaySheets, weather: Weather, n: int) -> Seq<VisitView>
    decreases n,
{
    if n <= 0 {
        Seq::empty()
    } else {
        day_visits(d, weather, n - 1) + visits_of(records_of_card(d, n - 1), weather)
    }
}

/// The censored visits of the cards with index below `n`, card after card.
pub open spec fn day_censored_visits(d: DaySheets, n: int) -> Seq<CensoredVisit>
    decreases n,
{
    if n <= 0 {
        Seq::empty()
    } else {
        day_censored_visits(d, n - 1) + censored_visits_of(records_of_card(d, n - 1))
    }
}

/// The entrance timestamps of the cards with index below `n`, card after card.
pub open spec fn day_in_stamps(d: DaySheets, n: int) -> Seq<Timestamp>
    decreases n,
{
    if n <= 0 {
        Seq::empty()
    } else {
        day_in_stamps(d, n - 1) + in_stamps(records_of_card(d, n - 1))
    }
}

/// The exit timestamps of the cards with index below `n`, card after card.
pub open spec fn day_out_stamps(d: DaySheets, n: int) -> Seq<Timestamp>
    decreases n,
{
    if n <= 0 {
        Seq::empty()
    } else {
        day_out_stamps(d, n - 1) + out_stamps(records_of_card(d, n - 1))
    }
}

/// The rows, among `lines`, of the card with code `code`.
fn select_ins(lines: &Vec<InLine>, code: usize) -> (res: Vec<InLine>)
    ensures
        res@ == ins_of_card(lines@, code),
{
    let mut res: Vec<InLine> = Vec::new();
    let mut i: usize = 0;
    while i < lines.len()
        invariant
            i <= lines.len(),
            res@ == ins_of_card(lines@.take(i as int), code),
        decreases lines.len() - i,
    {
        proof {
            assert(lines@.take(i + 1).drop_last() =~= lines@.take(i as int));
        }
        if lines[i].code == code {
            res.push(lines[i]);
        }
        i = i + 1;
    }
    proof {
        assert(lines@.take(lines.len() as int) =~= lines@);
    }
    res
}

/// The exit rows, among `lines`, of the card with code `code`.
fn select_outs(lines: &Vec<OutLine>, code: usize) -> (res: Vec<OutLine>)
    ensures
        res@ == outs_of_card(lines@, code),
{
    let mut res: Vec<OutLine> = Vec::new();
    let mut i: usize = 0;
    while i < lines.len()
        invariant
            i <= lines.len(),
            res@ == outs_of_card(lines@.take(i as int), code),
        decreases lines.len() - i,
    {
        proof {
            assert(lines@.take(i + 1).drop_last() =~= lines@.take(i as int));
        }
        if lines[i].code == code {
            res.push(lines[i].duplicate());
        }
        i = i + 1;
    }
    proof {
        assert(lines@.take(lines.len() as int) =~= lines@);
    }
    res
}

/// The first code, among the entrance rows and then the exit rows, that names no card.
pub fn find_bad_code(ins: &Vec<InLine>, outs: &Vec<OutLine>) -> (res: Option<usize>)
    ensures
        res == first_bad_code(ins@, outs@),
{
    let mut i: usize = 0;
    while i < ins.len()
        invariant
            i <= ins.len(),
            forall|j: int| 0 <= j < i ==> valid_code(#[trigger] ins@[j].code),
        decreases ins.len() - i,
    {
        if ins[i].code == 0 || ins[i].code > TOTAL_NUMBER_OF_CARDS {
            proof {
                let k = choose|k: int|
                    0 <= k < ins@.len() && !valid_code(#[trigger] ins@[k].code) && forall|j: int|
                        0 <= j < k ==> valid_code(#[trigger] ins@[j].code);
                assert(0 <= i < ins@.len() && !valid_code(ins@[i as int].code) && forall|j: int|
                    0 <= j < i ==> valid_code(#[trigger] ins@[j].code));
                if k < i {
                    assert(valid_code(ins@[k].code));
                } else if k > i {
                    assert(valid_code(ins@[i as int].code));
                }
            }
            return Some(ins[i].code);
        }
        i = i + 1;
    }
    let mut i: usize = 0;
    while i < outs.len()
        invariant
            i <= outs.len(),
            forall|j: int| 0 <= j < ins@.len() ==> valid_code(#[trigger] ins@[j].code),
            forall|j: int| 0 <= j < i ==> valid_code(#[trigger] outs@[j].code),
        decreases outs.len() - i,
    {
        if outs[i].code == 0 || outs[i].code > TOTAL_NUMBER_OF_CARDS {
            proof {
                let k = choose|k: int|
                    0 <= k < outs@.len() && !valid_code(#[trigger] outs@[k].code) && forall|j: int|
                        0 <= j < k ==> valid_code(#[trigger] outs@[j].code);
                assert(0 <= i < outs@.len() && !valid_code(outs@[i as int].code) && forall|j: int|
                    0 <= j < i ==> valid_code(#[trigger] outs@[j].code));
                if k < i {
                    assert(valid_code(outs@[k].code));
                } else if k > i {
                    assert(valid_code(outs@[i as int].code));
                }
            }
            return Some(outs[i].code);
        }
        i = i + 1;
    }
    None
}

/// The first exit row whose activity list does not read, with the reading error.
fn find_unreadable(outs: &Vec<OutLine>) -> (res: Option<String>)
    ensures
        res is None <==> first_unreadable(outs@) is None,
        res matches Some(msg) ==> (first_unreadable(outs@) matches Some(k) && msg@ == "'"@
            + listed_activities(outs@[k].activities@)->Err_0 + "' is not a valid Activity"@),
{
    let mut i: usize = 0;
    while i < outs.len()
        invariant
            i <= outs.len(),
            forall|j: int| 0 <= j < i ==> (#[trigger] listed_activities(outs@[j].activities@)) is Ok,
        decreases outs.len() - i,
    {
        match parse_activity_list(outs[i].activities.as_str()) {
            Ok(_) => {},
            Err(msg) => {
                proof {
                    let k = choose|k: int|
                        0 <= k < outs@.len() && (#[trigger] listed_activities(
                            outs@[k].activities@,
                        )) is Err && forall|j: int|
                            0 <= j < k ==> (#[trigger] listed_activities(
                                outs@[j].activities@,
                            )) is Ok;
                    assert(listed_activities(outs@[i as int].activities@) is Err);
                    if k < i {
                        assert(listed_activities(outs@[k].activities@) is Ok);
                    } else if k > i {
                        assert(listed_activities(outs@[i as int].activities@) is Ok);
                    }
                }
                return Some(msg);
            },
        }
        i = i + 1;
    }
    None
}

/// Whether `cards` lists `code`.
fn lists_card(cards: &Vec<usize>, code: usize) -> (res: bool)
    ensures
        res == cards@.contains(code),
{
    let mut i: usize = 0;
    while i < cards.len()
        invariant
            i <= cards.len(),
            forall|j: int| 0 <= j < i ==> cards@[j] != code,
        decreases cards.len() - i,
    {
        if cards[i] == code {
            return true;
        }
        i = i + 1;
    }
    false
}

/// The entrance and the exit timestamps of `recs`, each in order.
fn split_stamps(recs: &Vec<DataTimestamp>) -> (res: (Vec<Timestamp>, Vec<Timestamp>))
    ensures
        res.0@ == in_stamps(recs.deep_view()),
        res.1@ == out_stamps(recs.deep_view()),
{
    let ghost dv = recs.deep_view();
    let mut ins: Vec<Timestamp> = Vec::new();
    let mut outs: Vec<Timestamp> = Vec::new();
    let mut i: usize = 0;
    while i < recs.len()
        invariant
            dv == recs.deep_view(),
            i <= recs.len(),
            ins@ == in_stamps(dv.take(i as int)),
            outs@ == out_stamps(dv.take(i as int)),
        decreases recs.len() - i,
    {
        proof {
            assert(dv.take(i + 1).drop_last() =~= dv.take(i as int));
        }
        if recs[i].is_in {
            ins.push(recs[i].timestamp);
        } else {
            outs.push(recs[i].timestamp);
        }
        i = i + 1;
    }
    proof {
        assert(dv.take(recs.len() as int) =~= dv);
    }
    (ins, outs)
}

/// Reads one day of card data: the entrance and exit rows of all cards, the codes of the
/// cards missing at the end of the day, the hours of card distribution, the day's weather
/// and the end of the day. Each card's records (see [`card_records`]) give its visits,
/// censored visits and timestamps, card after card by code; the research time runs from
/// the start of handing out entrance cards to the end of collecting exit cards. Every
/// row's code must name a card (see [`find_bad_code`]). The day fails exactly when
/// [`day_fault`] names a fault, and then with that fault.
pub fn load_day(
    in_data: &Vec<InLine>,
    out_data: &Vec<OutLine>,
    missing_data: &Vec<usize>,
    distribution: &CardDistributionTime,
    weather: Weather,
    day_end: &DateTime,
) -> (res: Result<CardDay, DayFault>)
    requires
        first_bad_code(in_data@, out_data@) is None,
    ensures
        ({
            let d = DaySheets {
                ins: in_data@,
                outs: out_data@,
                missing_cards: missing_data@,
                distribution: *distribution,
                day_end: *day_end,
            };
            let n = TOTAL_NUMBER_OF_CARDS as int;
            &&& res is Err <==> day_fault(d) is Some
            &&& res matches Err(f) ==> day_fault(d) == Some(f.deep_view())
            &&& res matches Ok(day) ==> {
                &&& day.visits.deep_view() == day_visits(d, weather, n)
                &&& day.censored_visits@ == day_censored_visits(d, n)
                &&& day.in_timestamps@ == day_in_stamps(d, n)
                &&& day.out_timestamps@ == day_out_stamps(d, n)
                &&& day.research_time == ResearchTime {
                    start: distribution.in_start_time,
                    end: distribution.out_end_time,
                    weather,
                }
            }
        }),
{
    let ghost d = DaySheets {
        ins: in_data@,
        outs: out_data@,
        missing_cards: missing_data@,
        distribution: *distribution,
        day_end: *day_end,
    };
    let mut visits: Vec<Visit> = Vec::new();
    let mut censored_visits: Vec<CensoredVisit> = Vec::new();
    let mut in_timestamps: Vec<Timestamp> = Vec::new();
    let mut out_timestamps: Vec<Timestamp> = Vec::new();
    let mut id: usize = 0;
    while id < TOTAL_NUMBER_OF_CARDS
        invariant
            d == (DaySheets {
                ins: in_data@,
                outs: out_data@,
                missing_cards: missing_data@,
                distribution: *distribution,
                day_end: *day_end,
            }),
            first_bad_code(d.ins, d.outs) is None,
            id <= TOTAL_NUMBER_OF_CARDS,
            first_card_fault(d, id as int) is None,
            visits.deep_view() == day_visits(d, weather, id as int),
            censored_visits@ == day_censored_visits(d, id as int),
            in_timestamps@ == day_in_stamps(d, id as int),
            out_timestamps@ == day_out_stamps(d, id as int),
        decreases TOTAL_NUMBER_OF_CARDS - id,
    {
        let code = id + 1;
        let ins = select_ins(in_data, code);
        let outs = select_outs(out_data, code);
        let missing = if lists_card(missing_data, code) {
            Missing::Yes
        } else {
            Missing::No(distribution.out_end_time)
        };
        match find_unreadable(&outs) {
            Some(msg) => {
                proof {
                    assert(card_fault(d, id as int) is Some);
                    assert(day_fault(d) == first_card_fault(d, TOTAL_NUMBER_OF_CARDS as int));
                    lemma_first_card_fault_stable(d, id + 1, TOTAL_NUMBER_OF_CARDS as int);
                }
                return Err(DayFault::InvalidActivity(msg));
            },
            None => {},
        }
        proof {
            assert(activities_readable(outs@)) by {
                assert forall|k: int| 0 <= k < outs@.len() implies (#[trigger] listed_activities(
                    outs@[k].activities@,
                )) is Ok by {
                    if listed_activities(outs@[k].activities@) is Err {
                        assert(exists|k: int|
                            0 <= k < outs@.len() && (#[trigger] listed_activities(
                                outs@[k].activities@,
                            )) is Err);
                    }
                }
            }
        }
        let recs = calculate_data_timestamps(&ins, &outs, &missing, day_end);
        assert(recs.deep_view() == records_of_card(d, id as int));
        match find_incomplete_visit(&recs) {
            Some(i) => {
                let at = recs[i].timestamp.start;
                let fault = if recs[i].parked.is_none() {
                    DayFault::NoParkingRecord(at)
                } else {
                    DayFault::NoPeopleRecord(at)
                };
                proof {
                    lemma_by_start_len(recs.deep_view());
                    let sorted = by_start(records_of_card(d, id as int));
                    assert(outs@ == outs_of_card(d.outs, (id as int + 1) as usize));
                    assert(first_unreadable(outs_of_card(d.outs, (id as int + 1) as usize)) is None);
                    let p = first_incomplete(sorted, sorted.len() as int)->Some_0;
                    assert(sorted[p] == recs.deep_view()[i as int]);
                    assert(card_fault(d, id as int) == Some(fault.deep_view()));
                    lemma_first_card_fault_stable(d, id + 1, TOTAL_NUMBER_OF_CARDS as int);
                }
                return Err(fault);
            },
            None => {},
        }
        proof {
            lemma_by_start_len(recs.deep_view());
            lemma_first_incomplete(by_start(recs.deep_view()), recs.len() as int);
        }
        let mut card_visits = calculate_visits(&recs, weather);
        let mut card_censored = calculate_censored_visits(&recs);
        let (mut card_ins, mut card_outs) = split_stamps(&recs);
        let ghost before = visits.deep_view();
        let ghost added = card_visits.deep_view();
        visits.append(&mut card_visits);
        assert(visits.deep_view() =~= before + added);
        censored_visits.append(&mut card_censored);
        in_timestamps.append(&mut card_ins);
        out_timestamps.append(&mut card_outs);
        id = id + 1;
    }
    Ok(
        CardDay {
            visits,
            censored_visits,
            in_timestamps,
            out_timestamps,
            research_time: ResearchTime {
                start: distribution.in_start_time,
                end: distribution.out_end_time,
                weather,
            },
        },
    )
}

/// A card fault found among the first `m` cards stays the first among more of them.
proof fn lemma_first_card_fault_stable(d: DaySheets, m: int, n: int)
    requires
        m <= n,
        first_card_fault(d, m) is Some,
    ensures
        first_card_fault(d, n) == first_card_fault(d, m),
    decreases n - m,
{
    if m < n {
        lemma_first_card_fault_stable(d, m, n - 1);
    }
}

/// The timestamps picked out of a concatenation are those of each part.
proof fn lemma_stamps_concat(a: Seq<DataTimestampView>, b: Seq<DataTimestampView>)
    ensures
        in_stamps(a + b) == in_stamps(a) + in_stamps(b),
        out_stamps(a + b) == out_stamps(a) + out_stamps(b),
    decreases b.len(),
{
    if b.len() == 0 {
        assert(a + b =~= a);
        assert(in_stamps(a) + in_stamps(b) =~= in_stamps(a));
        assert(out_stamps(a) + out_stamps(b) =~= out_stamps(a));
    } else {
        lemma_stamps_concat(a, b.drop_last());
        assert((a + b).drop_last() =~= a + b.drop_last());
        assert(in_stamps(a) + in_stamps(b.drop_last()).push(b.last().timestamp) =~= (in_stamps(a)
            + in_stamps(b.drop_last())).push(b.last().timestamp));
        assert(out_stamps(a) + out_stamps(b.drop_last()).push(b.last().timestamp) =~= (
        out_stamps(a) + out_stamps(b.drop_last())).push(b.last().timestamp));
    }
}

/// Records all of one direction give all their timestamps to that direction.
proof fn lemma_stamps_uniform(recs: Seq<DataTimestampView>)
    ensures
        (forall|k: int| 0 <= k < recs.len() ==> (#[trigger] recs[k]).is_in) ==> in_stamps(recs)
            == Seq::new(recs.len(), |k: int| recs[k].timestamp) && out_stamps(recs) == Seq::<
            Timestamp,
        >::empty(),
        (forall|k: int| 0 <= k < recs.len() ==> !(#[trigger] recs[k]).is_in) ==> out_stamps(recs)
            == Seq::new(recs.len(), |k: int| recs[k].timestamp) && in_stamps(recs) == Seq::<
            Timestamp,
        >::empty(),
    decreases recs.len(),
{
    if recs.len() > 0 {
        let rest = recs.drop_last();
        lemma_stamps_uniform(rest);
        if forall|k: int| 0 <= k < recs.len() ==> (#[trigger] recs[k]).is_in {
            assert(forall|k: int| 0 <= k < rest.len() ==> (#[trigger] rest[k]).is_in) by {
                assert forall|k: int| 0 <= k < rest.len() implies (#[trigger] rest[k]).is_in by {
                    assert(rest[k] == recs[k]);
                }
            }
            assert(in_stamps(recs) =~= Seq::new(recs.len(), |k: int| recs[k].timestamp));
        }
        if forall|k: int| 0 <= k < recs.len() ==> !(#[trigger] recs[k]).is_in {
            assert(forall|k: int| 0 <= k < rest.len() ==> !(#[trigger] rest[k]).is_in) by {
                assert forall|k: int| 0 <= k < rest.len() implies !(#[trigger] rest[k]).is_in by {
                    assert(rest[k] == recs[k]);
                }
            }
            assert(out_stamps(recs) =~= Seq::new(recs.len(), |k: int| recs[k].timestamp));
        }
    }
}

/// A card's entrance timestamps are exactly its entrance rows' times, in order; its exit
/// timestamps are the leftover exit (when the card is still inside) followed by its exit
/// rows' times, in order.
pub proof fn lemma_card_stamps(ins: Seq<InLine>, outs: Seq<OutLine>, missing: Missing, day_end: DateTime)
    ensures
        in_stamps(card_records(ins, outs, missing, day_end)) == Seq::new(
            ins.len(),
            |k: int| Timestamp { start: ins[k].time, end: ins[k].time },
        ),
        out_stamps(card_records(ins, outs, missing, day_end)) == (if still_inside(ins, outs) {
            seq![leftover_record(ins, missing, day_end).timestamp]
        } else {
            Seq::empty()
        }) + Seq::new(outs.len(), |k: int| Timestamp { start: outs[k].time, end: outs[k].time }),
{
    let lead = if still_inside(ins, outs) {
        seq![leftover_record(ins, missing, day_end)]
    } else {
        Seq::empty()
    };
    let mid = Seq::new(ins.len(), |k: int| in_record(ins[k]));
    let tail = Seq::new(outs.len(), |k: int| out_record(outs[k]));
    assert(card_records(ins, outs, missing, day_end) == lead + mid + tail);
    lemma_stamps_concat(lead + mid, tail);
    lemma_stamps_concat(lead, mid);
    lemma_stamps_uniform(lead);
    lemma_stamps_uniform(mid);
    lemma_stamps_uniform(tail);
    assert(in_stamps(lead) + in_stamps(mid) + in_stamps(tail) =~= Seq::new(
        ins.len(),
        |k: int| Timestamp { start: ins[k].time, end: ins[k].time },
    ));
    assert(out_stamps(lead) + out_stamps(mid) + out_stamps(tail) =~= (if still_inside(ins, outs) {
        seq![leftover_record(ins, missing, day_end).timestamp]
    } else {
        Seq::empty()
    }) + Seq::new(outs.len(), |k: int| Timestamp { start: outs[k].time, end: outs[k].time }));
}

/// Every record gives its timestamp to exactly one of the entrance and exit timestamps.
pub proof fn lemma_stamps_partition(recs: Seq<DataTimestampView>)
    ensures
        in_stamps(recs).len() + out_stamps(recs).len() == recs.len(),
    decreases recs.len(),
{
    if recs.len() > 0 {
        lemma_stamps_partition(recs.drop_last());
    }
}

/// A card's records are its rows plus one leftover exit exactly when it is still inside,
/// which takes both an entrance and an exit row.
pub proof fn lemma_leftover_exit(ins: Seq<InLine>, outs: Seq<OutLine>, missing: Missing, day_end: DateTime)
    ensures
        card_records(ins, outs, missing, day_end).len() == ins.len() + outs.len() + (if still_inside(
            ins,
            outs,
        ) {
            1int
        } else {
            0int
        }),
        still_inside(ins, outs) ==> ins.len() > 0 && outs.len() > 0,
{
}

/// Over a day, there are never more fully observed visits than censored visits.
pub proof fn lemma_day_visits_are_censored(d: DaySheets, weather: Weather, n: int)
    ensures
        day_visits(d, weather, n).len() <= day_censored_visits(d, n).len(),
    decreases n,
{
    if n > 0 {
        lemma_day_visits_are_censored(d, weather, n - 1);
        lemma_visits_are_censored_visits(records_of_card(d, n - 1), weather);
    }
}

/// The entrance rows of the cards with codes `1..=n`, counted card by card.
pub open spec fn rows_of_first_cards(lines: Seq<InLine>, n: int) -> nat
    decreases n,
{
    if n <= 0 {
        0
    } else {
        rows_of_first_cards(lines, n - 1) + ins_of_card(lines, n as usize).len()
    }
}

/// The entrance rows whose code lies in `1..=n`.
pub open spec fn rows_with_code_up_to(lines: Seq<InLine>, n: int) -> nat
    decreases lines.len(),
{
    if lines.len() == 0 {
        0
    } else {
        rows_with_code_up_to(lines.drop_last(), n) + if 1 <= lines.last().code <= n {
            1nat
        } else {
            0nat
        }
    }
}

/// One more row adds one to the card-by-card count exactly when its code is among the cards.
proof fn lemma_rows_of_first_cards_push(lines: Seq<InLine>, n: int)
    requires
        lines.len() > 0,
        n <= usize::MAX,
    ensures
        rows_of_first_cards(lines, n) == rows_of_first_cards(lines.drop_last(), n) + if 1
            <= lines.last().code <= n {
            1nat
        } else {
            0nat
        },
    decreases n,
{
    if n > 0 {
        lemma_rows_of_first_cards_push(lines, n - 1);
    }
}

/// Counting card by card counts each row whose code names one of the cards once.
proof fn lemma_rows_of_first_cards(lines: Seq<InLine>, n: int)
    requires
        n <= usize::MAX,
    ensures
        rows_of_first_cards(lines, n) == rows_with_code_up_to(lines, n),
    decreases lines.len(),
{
    if lines.len() == 0 {
        lemma_rows_of_first_cards_empty(lines, n);
    } else {
        lemma_rows_of_first_cards(lines.drop_last(), n);
        lemma_rows_of_first_cards_push(lines, n);
    }
}

/// No rows, no count.
proof fn lemma_rows_of_first_cards_empty(lines: Seq<InLine>, n: int)
    requires
        lines.len() == 0,
    ensures
        rows_of_first_cards(lines, n) == 0,
    decreases n,
{
    if n > 0 {
        lemma_rows_of_first_cards_empty(lines, n - 1);
    }
}

/// When every code names a card, every row is counted.
proof fn lemma_rows_with_valid_codes(lines: Seq<InLine>)
    requires
        forall|k: int| 0 <= k < lines.len() ==> valid_code(#[trigger] lines[k].code),
    ensures
        rows_with_code_up_to(lines, TOTAL_NUMBER_OF_CARDS as int) == lines.len(),
    decreases lines.len(),
{
    if lines.len() > 0 {
        let rest = lines.drop_last();
        assert forall|k: int| 0 <= k < rest.len() implies valid_code(#[trigger] rest[k].code) by {
            assert(rest[k] == lines[k]);
        }
        lemma_rows_with_valid_codes(rest);
        assert(valid_code(lines[lines.len() - 1].code));
    }
}

/// The entrance timestamps of the first `n` cards number their entrance rows.
proof fn lemma_day_in_stamps_len(d: DaySheets, n: int)
    requires
        n <= usize::MAX,
    ensures
        day_in_stamps(d, n).len() == rows_of_first_cards(d.ins, n),
    decreases n,
{
    if n > 0 {
        lemma_day_in_stamps_len(d, n - 1);
        let code = (n - 1 + 1) as usize;
        lemma_card_stamps(
            ins_of_card(d.ins, code),
            outs_of_card(d.outs, code),
            missing_of_card(d.missing_cards, code, d.distribution.out_end_time),
            d.day_end,
        );
    }
}

/// Every entrance row of a day is logged once: on a day whose codes all name cards, the
/// entrance timestamps number the entrance rows.
pub proof fn lemma_every_entrance_logged(d: DaySheets)
    requires
        first_bad_code(d.ins, d.outs) is None,
    ensures
        day_in_stamps(d, TOTAL_NUMBER_OF_CARDS as int).len() == d.ins.len(),
{
    let n = TOTAL_NUMBER_OF_CARDS as int;
    assert forall|k: int| 0 <= k < d.ins.len() implies valid_code(#[trigger] d.ins[k].code) by {
        if !valid_code(d.ins[k].code) {
            assert(exists|j: int| 0 <= j < d.ins.len() && !valid_code(#[trigger] d.ins[j].code));
        }
    }
    lemma_day_in_stamps_len(d, n);
    lemma_rows_of_first_cards(d.ins, n);
    lemma_rows_with_valid_codes(d.ins);
}

/// Whether `t` is the timestamp of an exit of day `d`: an exit row's exact time, or the
/// window of a card still inside, which closes at the end of the day and opens when the
/// observers left or, for a missing card, at one of the entrance rows' times.
pub open spec fn exit_from_sheets(d: DaySheets, t: Timestamp) -> bool {
    ||| exists|k: int|
        0 <= k < d.outs.len() && t == (Timestamp {
            start: (#[trigger] d.outs[k]).time,
            end: d.outs[k].time,
        })
    ||| t.end == d.day_end && (t.start == d.distribution.out_end_time || exists|j: int|
        0 <= j < d.ins.len() && (#[trigger] d.ins[j]).time == t.start)
}

/// Each entrance row of one card is one of the day's entrance rows.
proof fn lemma_ins_of_card_from(lines: Seq<InLine>, code: usize)
    ensures
        forall|k: int|
            #![trigger ins_of_card(lines, code)[k]]
            0 <= k < ins_of_card(lines, code).len() ==> exists|m: int|
                0 <= m < lines.len() && #[trigger] lines[m] == ins_of_card(lines, code)[k],
    decreases lines.len(),
{
    if lines.len() > 0 {
        let rest = lines.drop_last();
        lemma_ins_of_card_from(rest, code);
        assert forall|k: int|
            #![trigger ins_of_card(lines, code)[k]]
            0 <= k < ins_of_card(lines, code).len() implies exists|m: int|
            0 <= m < lines.len() && #[trigger] lines[m] == ins_of_card(lines, code)[k] by {
            if k < ins_of_card(rest, code).len() {
                let m = choose|m: int|
                    0 <= m < rest.len() && #[trigger] rest[m] == ins_of_card(rest, code)[k];
                assert(lines[m] == rest[m]);
            } else {
                assert(lines[lines.len() - 1] == lines.last());
            }
        }
    }
}

/// Each exit row of one card is one of the day's exit rows.
proof fn lemma_outs_of_card_from(lines: Seq<OutLine>, code: usize)
    ensures
        forall|k: int|
            #![trigger outs_of_card(lines, code)[k]]
            0 <= k < outs_of_card(lines, code).len() ==> exists|m: int|
                0 <= m < lines.len() && #[trigger] lines[m] == outs_of_card(lines, code)[k],
    decreases lines.len(),
{
    if lines.len() > 0 {
        let rest = lines.drop_last();
        lemma_outs_of_card_from(rest, code);
        assert forall|k: int|
            #![trigger outs_of_card(lines, code)[k]]
            0 <= k < outs_of_card(lines, code).len() implies exists|m: int|
            0 <= m < lines.len() && #[trigger] lines[m] == outs_of_card(lines, code)[k] by {
            if k < outs_of_card(rest, code).len() {
                let m = choose|m: int|
                    0 <= m < rest.len() && #[trigger] rest[m] == outs_of_card(rest, code)[k];
                assert(lines[m] == rest[m]);
            } else {
                assert(lines[lines.len() - 1] == lines.last());
            }
        }
    }
}

/// The exit timestamps of one card are exits of the day.
proof fn lemma_card_exits_from_sheets(d: DaySheets, k: int)
    requires
        0 <= k < TOTAL_NUMBER_OF_CARDS,
    ensures
        forall|x: int|
            0 <= x < out_stamps(records_of_card(d, k)).len() ==> #[trigger] exit_from_sheets(
                d,
                out_stamps(records_of_card(d, k))[x],
            ),
{
    let code = (k + 1) as usize;
    let ins = ins_of_card(d.ins, code);
    let outs = outs_of_card(d.outs, code);
    let missing = missing_of_card(d.missing_cards, code, d.distribution.out_end_time);
    lemma_card_stamps(ins, outs, missing, d.day_end);
    lemma_ins_of_card_from(d.ins, code);
    lemma_outs_of_card_from(d.outs, code);
    lemma_latest_in(ins);
    let stamps = out_stamps(records_of_card(d, k));
    let lead: Seq<Timestamp> = if still_inside(ins, outs) {
        seq![leftover_record(ins, missing, d.day_end).timestamp]
    } else {
        Seq::empty()
    };
    assert forall|x: int| 0 <= x < stamps.len() implies #[trigger] exit_from_sheets(
        d,
        stamps[x],
    ) by {
        if x < lead.len() {
            lemma_leftover_exit(ins, outs, missing, d.day_end);
            let t = stamps[x];
            assert(t == leftover_record(ins, missing, d.day_end).timestamp);
            if missing is Yes {
                let a = latest_in(ins)->Some_0;
                let j = choose|j: int| 0 <= j < ins.len() && (#[trigger] ins[j]).time == a;
                let m = choose|m: int| 0 <= m < d.ins.len() && #[trigger] d.ins[m] == ins[j];
                assert(d.ins[m].time == t.start);
            }
        } else {
            let r = x - lead.len();
            let m = choose|m: int| 0 <= m < d.outs.len() && #[trigger] d.outs[m] == outs[r];
            assert(stamps[x] == Timestamp { start: d.outs[m].time, end: d.outs[m].time });
        }
    }
}

/// Every exit timestamp of a day is an exit row's exact time, or the window of a card
/// still inside at the end of the day, opening when the observers left or, for a missing
/// card, at one of the entrance rows' times.
pub proof fn lemma_day_exits_from_sheets(d: DaySheets, n: int)
    requires
        n <= TOTAL_NUMBER_OF_CARDS,
    ensures
        forall|x: int|
            0 <= x < day_out_stamps(d, n).len() ==> #[trigger] exit_from_sheets(
                d,
                day_out_stamps(d, n)[x],
            ),
    decreases n,
{
    if n > 0 {
        lemma_day_exits_from_sheets(d, n - 1);
        lemma_card_exits_from_sheets(d, n - 1);
        let before = day_out_stamps(d, n - 1);
        let card = out_stamps(records_of_card(d, n - 1));
        assert forall|x: int| 0 <= x < day_out_stamps(d, n).len() implies #[trigger] exit_from_sheets(
            d,
            day_out_stamps(d, n)[x],
        ) by {
            if x < before.len() {
                assert(day_out_stamps(d, n)[x] == before[x]);
            } else {
                assert(day_out_stamps(d, n)[x] == card[x - before.len()]);
            }
        }
    }
}

/// A card fails on a missing parking status only at an exit, taken in the order by start,
/// that lacks it; and on a missing head count only at an exit that has its parking status
/// but lacks its head count; either exit closes a fully observed visit.
pub proof fn lemma_record_faults(d: DaySheets, k: int)
    ensures
        card_fault(d, k) matches Some(DayFaultView::NoParkingRecord(t)) ==> exists|q: int|
            1 <= q < by_start(records_of_card(d, k)).len() && {
                let r = #[trigger] by_start(records_of_card(d, k))[q];
                &&& r.timestamp.start == t
                &&& !r.is_in
                &&& r.parked is None
                &&& by_start(records_of_card(d, k))[q - 1].is_in
            },
        card_fault(d, k) matches Some(DayFaultView::NoPeopleRecord(t)) ==> exists|q: int|
            1 <= q < by_start(records_of_card(d, k)).len() && {
                let r = #[trigger] by_start(records_of_card(d, k))[q];
                &&& r.timestamp.start == t
                &&& !r.is_in
                &&& r.parked is Some
                &&& r.people_in_car is None
                &&& by_start(records_of_card(d, k))[q - 1].is_in
            },
{
    let sorted = by_start(records_of_card(d, k));
    lemma_first_incomplete(sorted, sorted.len() as int);
    if first_unreadable(outs_of_card(d.outs, (k + 1) as usize)) is None {
        if let Some(q) = first_incomplete(sorted, sorted.len() as int) {
            assert(incomplete_at(sorted, q));
        }
    }
}

} // verus!
