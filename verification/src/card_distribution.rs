use vstd::prelude::*;
use vstd::string::StringExecFns;

use crate::card_data::CardDistributionTime;
use crate::clock::DateTime;
use crate::parsers::{date_time_reading, twelve_hour_format};
use crate::text::{trim, trimmed};

verus! {

/// A row of the card distribution sheet: a label (`In` or `Out`) and the start and end
/// cells, either of which may be absent.
pub struct DistributionRecord {
    pub label: String,
    pub start: Option<String>,
    pub end: Option<String>,
}

/// Why the card distribution sheet cannot be read.
pub enum DistributionFault {
    /// A time cell does not read; holds the text that was read.
    UnreadableTime(String),
    /// No row carries this label.
    MissingLabel(String),
}

/// The mathematical value of a [`DistributionFault`].
pub enum DistributionFaultView {
    UnreadableTime(Seq<char>),
    MissingLabel(Seq<char>),
}

impl DeepView for DistributionFault {
    type V = DistributionFaultView;

    open spec fn deep_view(&self) -> DistributionFaultView {
        match self {
            DistributionFault::UnreadableTime(t) => DistributionFaultView::UnreadableTime(t@),
            DistributionFault::MissingLabel(l) => DistributionFaultView::MissingLabel(l@),
        }
    }
}

/// The text stood in for an absent or blank time cell.
pub open spec fn default_time_text() -> Seq<char> {
    "01/01/1970 12:00 AM"@
}

/// The text read from a time cell: the cell itself, unless it is absent or blank once
/// trimmed.
pub open spec fn time_cell_text(cell: Option<String>) -> Seq<char> {
    match cell {
        Some(t) => if trimmed(t@).len() > 0 {
            t@
        } else {
            default_time_text()
        },
        None => default_time_text(),
    }
}

/// The moment a time cell reads as.
pub open spec fn time_cell(cell: Option<String>) -> Option<DateTime> {
    date_time_reading(time_cell_text(cell), twelve_hour_format())
}

/// The first time cell, row by row and the start before the end, that does not read; its text.
pub open spec fn first_unreadable_cell(records: Seq<DistributionRecord>) -> Option<Seq<char>>
    decreases records.len(),
{
    if records.len() == 0 {
        None
    } else {
        match first_unreadable_cell(records.drop_last()) {
            Some(t) => Some(t),
            None => {
                let r = records.last();
                if time_cell(r.start) is None {
                    Some(time_cell_text(r.start))
                } else if time_cell(r.end) is None {
                    Some(time_cell_text(r.end))
                } else {
                    None
                }
            },
        }
    }
}

/// The index of the last row labelled `label`; a later row replaces an earlier one.
pub open spec fn last_labelled(records: Seq<DistributionRecord>, label: Seq<char>) -> Option<int>
    decreases records.len(),
{
    if records.len() == 0 {
        None
    } else if records.last().label@ == label {
        Some(records.len() - 1)
    } else {
        last_labelled(records.drop_last(), label)
    }
}

/// Why the rows give no hours of card distribution, if they give none: the first time
/// cell that does not read, else the lack of an `In` row, else the lack of an `Out` row.
pub open spec fn distribution_fault(records: Seq<DistributionRecord>) -> Option<DistributionFaultView> {
    match first_unreadable_cell(records) {
        Some(t) => Some(DistributionFaultView::UnreadableTime(t)),
        None => if last_labelled(records, "In"@) is None {
            Some(DistributionFaultView::MissingLabel("In"@))
        } else if last_labelled(records, "Out"@) is None {
            Some(DistributionFaultView::MissingLabel("Out"@))
        } else {
            None
        },
    }
}

/// The hours of card distribution that the rows give: the start and end of the last `In`
/// row and of the last `Out` row.
pub open spec fn distribution_reading(records: Seq<DistributionRecord>) -> CardDistributionTime {
    let i = last_labelled(records, "In"@)->Some_0;
    let o = last_labelled(records, "Out"@)->Some_0;
    CardDistributionTime {
        in_start_time: time_cell(records[i].start)->Some_0,
        out_start_time: time_cell(records[o].start)->Some_0,
        in_end_time: time_cell(records[i].end)->Some_0,
        out_end_time: time_cell(records[o].end)->Some_0,
    }
}

/// Reads one time cell; the text read is handed back on failure.
fn read_time_cell(cell: &Option<String>) -> (res: Result<DateTime, String>)
    ensures
        match res {
            Ok(t) => time_cell(*cell) == Some(t),
            Err(text) => time_cell(*cell) is None && text@ == time_cell_text(*cell),
        },
{
    let text: String = match cell {
        Some(t) => if trim(t.as_str()).unicode_len() > 0 {
            t.clone()
        } else {
            String::from_str("01/01/1970 12:00 AM")
        },
        None => String::from_str("01/01/1970 12:00 AM"),
    };
    assert(text@ == time_cell_text(*cell));
    match crate::parsers::read_twelve_hour(text.as_str()) {
        Some(t) => Ok(t),
        None => Err(text),
    }
}

/// Whether `records` has a row labelled `label`.
fn has_label(records: &Vec<DistributionRecord>, label: &String) -> (res: bool)
    ensures
        res == (last_labelled(records@, label@) is Some),
{
    let mut i: usize = records.len();
    assert(records@.take(i as int) =~= records@);
    while i > 0
        invariant
            i <= records.len(),
            last_labelled(records@, label@) == last_labelled(records@.take(i as int), label@),
        decreases i,
    {
        proof {
            assert(records@.take(i as int).drop_last() =~= records@.take(i - 1));
        }
        if records[i - 1].label == *label {
            return true;
        }
        i = i - 1;
    }
    false
}

/// Finds why the card distribution sheet gives no hours (see [`distribution_fault`]), if
/// it gives none.
pub fn find_distribution_fault(records: &Vec<DistributionRecord>) -> (res: Option<DistributionFault>)
    ensures
        res is None <==> distribution_fault(records@) is None,
        res matches Some(f) ==> distribution_fault(records@) == Some(f.deep_view()),
{
    let mut i: usize = 0;
    while i < records.len()
        invariant
            i <= records.len(),
            first_unreadable_cell(records@.take(i as int)) is None,
        decreases records.len() - i,
    {
        proof {
            assert(records@.take(i + 1).drop_last() =~= records@.take(i as int));
        }
        let r = &records[i];
        match read_time_cell(&r.start) {
            Ok(_) => {},
            Err(text) => {
                proof {
                    lemma_unreadable_stays(records@, i + 1);
                }
                return Some(DistributionFault::UnreadableTime(text));
            },
        }
        match read_time_cell(&r.end) {
            Ok(_) => {},
            Err(text) => {
                proof {
                    lemma_unreadable_stays(records@, i + 1);
                }
                return Some(DistributionFault::UnreadableTime(text));
            },
        }
        i = i + 1;
    }
    proof {
        assert(records@.take(records.len() as int) =~= records@);
    }
    let in_label = String::from_str("In");
    let out_label = String::from_str("Out");
    if !has_label(records, &in_label) {
        return Some(DistributionFault::MissingLabel(in_label));
    }
    if !has_label(records, &out_label) {
        return Some(DistributionFault::MissingLabel(out_label));
    }
    None
}

/// Reads the card distribution sheet (see [`distribution_reading`]). Every time cell must
/// read and there must be an `In` and an `Out` row (see [`find_distribution_fault`]).
pub fn read_card_distribution_time(records: &Vec<DistributionRecord>) -> (res: CardDistributionTime)
    requires
        distribution_fault(records@) is None,
    ensures
        res == distribution_reading(records@),
        exists|k: int|
            0 <= k < records@.len() && (#[trigger] records@[k]).label@ == "In"@ && (forall|j: int|
                k < j < records@.len() ==> (#[trigger] records@[j]).label@ != "In"@) && time_cell(
                records@[k].start,
            ) == Some(res.in_start_time) && time_cell(records@[k].end) == Some(res.in_end_time),
        exists|k: int|
            0 <= k < records@.len() && (#[trigger] records@[k]).label@ == "Out"@ && (forall|j: int|
                k < j < records@.len() ==> (#[trigger] records@[j]).label@ != "Out"@) && time_cell(
                records@[k].start,
            ) == Some(res.out_start_time) && time_cell(records@[k].end) == Some(res.out_end_time),
{
    let in_label = String::from_str("In");
    let out_label = String::from_str("Out");
    let mut in_times: Option<(DateTime, DateTime)> = None;
    let mut out_times: Option<(DateTime, DateTime)> = None;
    let mut i: usize = 0;
    while i < records.len()
        invariant
            i <= records.len(),
            in_label@ == "In"@,
            out_label@ == "Out"@,
            first_unreadable_cell(records@) is None,
            match last_labelled(records@.take(i as int), "In"@) {
                None => in_times is None,
                Some(k) => in_times == Some(
                    (
                        time_cell(records@[k].start)->Some_0,
                        time_cell(records@[k].end)->Some_0,
                    ),
                ),
            },
            match last_labelled(records@.take(i as int), "Out"@) {
                None => out_times is None,
                Some(k) => out_times == Some(
                    (
                        time_cell(records@[k].start)->Some_0,
                        time_cell(records@[k].end)->Some_0,
                    ),
                ),
            },
        decreases records.len() - i,
    {
        proof {
            assert(records@.take(i + 1).drop_last() =~= records@.take(i as int));
            if first_unreadable_cell(records@.take(i + 1)) is Some {
                lemma_unreadable_stays(records@, i + 1);
            }
        }
        let r = &records[i];
        let start = match read_time_cell(&r.start) {
            Ok(t) => t,
            Err(_) => DateTime { secs: 0, nanos: 0 },
        };
        let end = match read_time_cell(&r.end) {
            Ok(t) => t,
            Err(_) => DateTime { secs: 0, nanos: 0 },
        };
        if r.label == in_label {
            in_times = Some((start, end));
        } else if r.label == out_label {
            out_times = Some((start, end));
        }
        proof {
            lemma_last_labelled_bound(records@.take(i as int), "In"@);
            lemma_last_labelled_bound(records@.take(i as int), "Out"@);
            lemma_labels_differ();
        }
        i = i + 1;
    }
    proof {
        assert(records@.take(records.len() as int) =~= records@);
    }
    let res = match (in_times, out_times) {
        (Some((in_start_time, in_end_time)), Some((out_start_time, out_end_time))) => CardDistributionTime {
            in_start_time,
            out_start_time,
            in_end_time,
            out_end_time,
        },
        _ => CardDistributionTime {
            in_start_time: DateTime { secs: 0, nanos: 0 },
            out_start_time: DateTime { secs: 0, nanos: 0 },
            in_end_time: DateTime { secs: 0, nanos: 0 },
            out_end_time: DateTime { secs: 0, nanos: 0 },
        },
    };
    proof {
        lemma_last_labelled_is_last(records@, "In"@);
        lemma_last_labelled_is_last(records@, "Out"@);
        lemma_cells_read(records@);
        let ki = last_labelled(records@, "In"@)->Some_0;
        let ko = last_labelled(records@, "Out"@)->Some_0;
        assert(time_cell(records@[ki].start) is Some && time_cell(records@[ki].end) is Some);
        assert(time_cell(records@[ko].start) is Some && time_cell(records@[ko].end) is Some);
    }
    res
}

/// The two labels differ.
proof fn lemma_labels_differ()
    ensures
        "In"@ != "Out"@,
{
    reveal_strlit("In");
    reveal_strlit("Out");
    assert("In"@.len() != "Out"@.len());
}

/// A last labelled row lies within the rows.
proof fn lemma_last_labelled_bound(records: Seq<DistributionRecord>, label: Seq<char>)
    ensures
        last_labelled(records, label) matches Some(k) ==> 0 <= k < records.len() && records[k].label@
            == label,
    decreases records.len(),
{
    if records.len() > 0 {
        lemma_last_labelled_bound(records.drop_last(), label);
    }
}

/// The last labelled row carries the label, and no later row does.
proof fn lemma_last_labelled_is_last(records: Seq<DistributionRecord>, label: Seq<char>)
    ensures
        last_labelled(records, label) matches Some(k) ==> 0 <= k < records.len()
            && records[k].label@ == label && forall|j: int|
            k < j < records.len() ==> (#[trigger] records[j]).label@ != label,
    decreases records.len(),
{
    if records.len() > 0 {
        lemma_last_labelled_is_last(records.drop_last(), label);
        if let Some(k) = last_labelled(records, label) {
            if records.last().label@ != label {
                assert forall|j: int| k < j < records.len() implies (#[trigger] records[j]).label@
                    != label by {
                    if j < records.len() - 1 {
                        assert(records[j] == records.drop_last()[j]);
                    }
                }
            }
        }
    }
}

/// When no time cell fails to read, every one reads.
proof fn lemma_cells_read(records: Seq<DistributionRecord>)
    requires
        first_unreadable_cell(records) is None,
    ensures
        forall|k: int|
            0 <= k < records.len() ==> time_cell((#[trigger] records[k]).start) is Some && time_cell(
                records[k].end,
            ) is Some,
    decreases records.len(),
{
    if records.len() > 0 {
        lemma_cells_read(records.drop_last());
        assert forall|k: int| 0 <= k < records.len() implies time_cell(
            (#[trigger] records[k]).start,
        ) is Some && time_cell(records[k].end) is Some by {
            if k < records.len() - 1 {
                assert(records[k] == records.drop_last()[k]);
            }
        }
    }
}

/// An unreadable cell among the first `n` rows is the first unreadable one of all rows.
proof fn lemma_unreadable_stays(records: Seq<DistributionRecord>, n: int)
    requires
        0 <= n <= records.len(),
        first_unreadable_cell(records.take(n)) is Some,
    ensures
        first_unreadable_cell(records) == first_unreadable_cell(records.take(n)),
    decreases records.len() - n,
{
    if n < records.len() {
        assert(records.take(n + 1).drop_last() =~= records.take(n));
        lemma_unreadable_stays(records, n + 1);
    } else {
        assert(records.take(n) =~= records);
    }
}

} // verus!
