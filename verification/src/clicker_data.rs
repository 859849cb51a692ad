use vstd::prelude::*;

use crate::clock::DateTime;
use crate::model::Timestamp;

verus! {

/// A row of the clicker sheet: a window of time (either end may be unknown) and how many
/// cars were counted going in and out during it.
#[derive(Clone, Copy, Debug, PartialEq, Eq, Structural)]
pub struct ClickerLine {
    pub start_time: Option<DateTime>,
    pub end_time: Option<DateTime>,
    pub in_count: Option<usize>,
    pub out_count: Option<usize>,
}

/// What a day of clicker data yields.
pub struct ClickerDay {
    pub in_timestamps: Vec<Timestamp>,
    pub out_timestamps: Vec<Timestamp>,
}

/// The window of a clicker row: an unknown start is the start of the day, an unknown end
/// the end of the day.
pub open spec fn clicker_window(line: ClickerLine, day_start: DateTime, day_end: DateTime) -> Timestamp {
    Timestamp {
        start: match line.start_time {
            Some(t) => t,
            None => day_start,
        },
        end: match line.end_time {
            Some(t) => t,
            None => day_end,
        },
    }
}

/// A count, with an unknown count taken as zero.
pub open spec fn known_count(c: Option<usize>) -> nat {
    match c {
        Some(n) => n as nat,
        None => 0,
    }
}

/// `n` copies of `t`.
pub open spec fn copies(t: Timestamp, n: nat) -> Seq<Timestamp> {
    Seq::new(n, |_i: int| t)
}

/// The entrance timestamps of the rows: each row's window once per car counted in.
pub open spec fn clicked_ins(lines: Seq<ClickerLine>, day_start: DateTime, day_end: DateTime) -> Seq<Timestamp>
    decreases lines.len(),
{
    if lines.len() == 0 {
        Seq::empty()
    } else {
        clicked_ins(lines.drop_last(), day_start, day_end) + copies(
            clicker_window(lines.last(), day_start, day_end),
            known_count(lines.last().in_count),
        )
    }
}

/// The exit timestamps of the rows: each row's window once per car counted out.
pub open spec fn clicked_outs(lines: Seq<ClickerLine>, day_start: DateTime, day_end: DateTime) -> Seq<Timestamp>
    decreases lines.len(),
{
    if lines.len() == 0 {
        Seq::empty()
    } else {
        clicked_outs(lines.drop_last(), day_start, day_end) + copies(
            clicker_window(lines.last(), day_start, day_end),
            known_count(lines.last().out_count),
        )
    }
}

/// The timestamps counted in (and out) are, row after row, as many copies of the row's
/// window as the row counts cars, the window running from the row's start (the start of
/// the day when unknown) to its end (the end of the day when unknown).
proof fn lemma_clicked_rows(lines: Seq<ClickerLine>, day_start: DateTime, day_end: DateTime)
    ensures
        clicked_ins(lines, day_start, day_end) == lines.map_values((|line: ClickerLine|
            Seq::new(
                match line.in_count {
                    Some(n) => n as nat,
                    None => 0nat,
                },
                |_k: int|
                    (Timestamp {
                        start: match line.start_time {
                            Some(t) => t,
                            None => day_start,
                        },
                        end: match line.end_time {
                            Some(t) => t,
                            None => day_end,
                        },
                    }),
            ))).flatten(),
        clicked_outs(lines, day_start, day_end) == lines.map_values((|line: ClickerLine|
            Seq::new(
                match line.out_count {
                    Some(n) => n as nat,
                    None => 0nat,
                },
                |_k: int|
                    (Timestamp {
                        start: match line.start_time {
                            Some(t) => t,
                            None => day_start,
                        },
                        end: match line.end_time {
                            Some(t) => t,
                            None => day_end,
                        },
                    }),
            ))).flatten(),
    decreases lines.len(),
{
    if lines.len() > 0 {
        let rest = lines.drop_last();
        lemma_clicked_rows(rest, day_start, day_end);
        let row_ins = |line: ClickerLine|
            Seq::new(
                match line.in_count {
                    Some(n) => n as nat,
                    None => 0nat,
                },
                |_k: int|
                    (Timestamp {
                        start: match line.start_time {
                            Some(t) => t,
                            None => day_start,
                        },
                        end: match line.end_time {
                            Some(t) => t,
                            None => day_end,
                        },
                    }),
            );
        let row_outs = |line: ClickerLine|
            Seq::new(
                match line.out_count {
                    Some(n) => n as nat,
                    None => 0nat,
                },
                |_k: int|
                    (Timestamp {
                        start: match line.start_time {
                            Some(t) => t,
                            None => day_start,
                        },
                        end: match line.end_time {
                            Some(t) => t,
                            None => day_end,
                        },
                    }),
            );
        assert(lines.map_values(row_ins).drop_last() =~= rest.map_values(row_ins));
        assert(lines.map_values(row_outs).drop_last() =~= rest.map_values(row_outs));
        let w = clicker_window(lines.last(), day_start, day_end);
        assert(copies(w, known_count(lines.last().in_count)) =~= row_ins(lines.last()));
        assert(copies(w, known_count(lines.last().out_count)) =~= row_outs(lines.last()));
        rest.map_values(row_ins).lemma_flatten_and_flatten_alt_are_equivalent();
        rest.map_values(row_outs).lemma_flatten_and_flatten_alt_are_equivalent();
        lines.map_values(row_ins).lemma_flatten_and_flatten_alt_are_equivalent();
        lines.map_values(row_outs).lemma_flatten_and_flatten_alt_are_equivalent();
    }
}

/// `a - b`, or 0 when `b` is larger.
pub open spec fn saturating_difference(a: int, b: int) -> nat {
    if a > b {
        (a - b) as nat
    } else {
        0
    }
}

/// The cars still inside at the end of the day: the cars counted in less those counted
/// out, less the missing cards (which count only on days with more than one clicker row).
pub open spec fn cars_left(
    lines: Seq<ClickerLine>,
    missing_cards: nat,
    day_start: DateTime,
    day_end: DateTime,
) -> nat {
    let missing = if lines.len() > 1 {
        missing_cards
    } else {
        0
    };
    saturating_difference(
        saturating_difference(
            clicked_ins(lines, day_start, day_end).len() as int,
            clicked_outs(lines, day_start, day_end).len() as int,
        ) as int,
        missing as int,
    )
}

/// All exit timestamps of the day: the counted exits, then one exit per car still inside,
/// somewhere between the end of the last row's window and the end of the day.
pub open spec fn clicker_exits(
    lines: Seq<ClickerLine>,
    missing_cards: nat,
    day_start: DateTime,
    day_end: DateTime,
) -> Seq<Timestamp> {
    let counted = clicked_outs(lines, day_start, day_end);
    if lines.len() == 0 {
        counted
    } else {
        counted + copies(
            Timestamp { start: lines.last().end_time->Some_0, end: day_end },
            cars_left(lines, missing_cards, day_start, day_end),
        )
    }
}

/// Appends `n` copies of `t` to `v`.
fn push_copies(v: &mut Vec<Timestamp>, t: Timestamp, n: usize)
    ensures
        final(v)@ == old(v)@ + copies(t, n as nat),
{
    let ghost start = v@;
    let mut i: usize = 0;
    while i < n
        invariant
            i <= n,
            v@ == start + copies(t, i as nat),
        decreases n - i,
    {
        v.push(t);
        i = i + 1;
        assert(v@ =~= start + copies(t, i as nat));
    }
}

/// Reads one day of clicker data: its rows, the number of lines of the day's missing-card
/// sheet, and the start and end of the day. The last row must have a known end time.
pub fn load_day(
    data: &Vec<ClickerLine>,
    missing_lines: usize,
    day_start: &DateTime,
    day_end: &DateTime,
) -> (res: ClickerDay)
    requires
        data.len() > 0 ==> data@.last().end_time is Some,
    ensures
        res.in_timestamps@ == clicked_ins(data@, *day_start, *day_end),
        res.out_timestamps@ == clicker_exits(data@, missing_lines as nat, *day_start, *day_end),
        res.in_timestamps@ == data@.map_values((|line: ClickerLine|
            Seq::new(
                match line.in_count {
                    Some(n) => n as nat,
                    None => 0nat,
                },
                |_k: int|
                    (Timestamp {
                        start: match line.start_time {
                            Some(t) => t,
                            None => *day_start,
                        },
                        end: match line.end_time {
                            Some(t) => t,
                            None => *day_end,
                        },
                    }),
            ))).flatten(),
        res.out_timestamps@ == data@.map_values((|line: ClickerLine|
            Seq::new(
                match line.out_count {
                    Some(n) => n as nat,
                    None => 0nat,
                },
                |_k: int|
                    (Timestamp {
                        start: match line.start_time {
                            Some(t) => t,
                            None => *day_start,
                        },
                        end: match line.end_time {
                            Some(t) => t,
                            None => *day_end,
                        },
                    }),
            ))).flatten() + (if data@.len() > 0 {
            Seq::new(
                cars_left(data@, missing_lines as nat, *day_start, *day_end),
                |_k: int| (Timestamp { start: data@.last().end_time->Some_0, end: *day_end }),
            )
        } else {
            Seq::empty()
        }),
{
    let missing_count: usize = if data.len() > 1 {
        missing_lines
    } else {
        0
    };
    let mut in_timestamps: Vec<Timestamp> = Vec::new();
    let mut out_timestamps: Vec<Timestamp> = Vec::new();
    let mut i: usize = 0;
    while i < data.len()
        invariant
            i <= data.len(),
            in_timestamps@ == clicked_ins(data@.take(i as int), *day_start, *day_end),
            out_timestamps@ == clicked_outs(data@.take(i as int), *day_start, *day_end),
        decreases data.len() - i,
    {
        proof {
            assert(data@.take(i + 1).drop_last() =~= data@.take(i as int));
        }
        let line = data[i];
        let start = match line.start_time {
            Some(t) => t,
            None => *day_start,
        };
        let end = match line.end_time {
            Some(t) => t,
            None => *day_end,
        };
        let window = Timestamp { start, end };
        let ins: usize = match line.in_count {
            Some(n) => n,
            None => 0,
        };
        let outs: usize = match line.out_count {
            Some(n) => n,
            None => 0,
        };
        push_copies(&mut in_timestamps, window, ins);
        push_copies(&mut out_timestamps, window, outs);
        i = i + 1;
    }
    proof {
        assert(data@.take(data.len() as int) =~= data@);
    }
    if data.len() > 0 {
        let after_outs = if in_timestamps.len() > out_timestamps.len() {
            in_timestamps.len() - out_timestamps.len()
        } else {
            0
        };
        let remaining_cars = if after_outs > missing_count {
            after_outs - missing_count
        } else {
            0
        };
        let last_end = match data[data.len() - 1].end_time {
            Some(t) => t,
            None => *day_end,
        };
        push_copies(&mut out_timestamps, Timestamp { start: last_end, end: *day_end }, remaining_cars);
    }
    proof {
        lemma_clicked_rows(data@, *day_start, *day_end);
    }
    ClickerDay { in_timestamps, out_timestamps }
}

/// On a day with clicker rows, every car counted in is counted out, unless its card went
/// missing: the exits number the counted exits, or the counted entrances less the missing
/// cards (counted only with more than one row), whichever is more.
pub proof fn lemma_clicker_balance(
    lines: Seq<ClickerLine>,
    missing_cards: nat,
    day_start: DateTime,
    day_end: DateTime,
)
    requires
        lines.len() > 0,
    ensures
        ({
            let ins = clicked_ins(lines, day_start, day_end).len() as int;
            let outs = clicked_outs(lines, day_start, day_end).len() as int;
            let missing = if lines.len() > 1 {
                missing_cards as int
            } else {
                0
            };
            let exits = clicker_exits(lines, missing_cards, day_start, day_end).len() as int;
            &&& exits >= outs
            &&& exits >= ins - missing
            &&& (exits == outs || exits == ins - missing)
        }),
{
}

} // verus!
