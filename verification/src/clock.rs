use vstd::prelude::*;

verus! {

/// Number of seconds in a calendar day.
pub const SECONDS_PER_DAY: i64 = 86400;

/// Number of nanoseconds in a second.
pub const NANOS_PER_SECOND: u32 = 1_000_000_000;

/// A calendar date with a clock time: `secs` counts the whole seconds since
/// 1970-01-01 00:00:00 of the same zone-less calendar, and `nanos` the nanoseconds past
/// them. As in chrono, `nanos` reaches `NANOS_PER_SECOND` or more only during a leap
/// second, which follows the 59th second of a minute.
#[derive(Clone, Copy, Debug, PartialEq, Eq, Structural)]
pub struct DateTime {
    pub secs: i64,
    pub nanos: u32,
}

/// A clock time within one day: the seconds since midnight and the nanoseconds past them
/// (a leap second as in [`DateTime`]).
#[derive(Clone, Copy, Debug, PartialEq, Eq, Structural)]
pub struct TimeOfDay {
    pub secs: u32,
    pub nanos: u32,
}

/// Whether `t` is a moment chrono can hold: its nanoseconds stay below two seconds, and
/// reach one second only after the 59th second of a minute.
pub open spec fn valid_moment(t: DateTime) -> bool {
    &&& t.nanos < 2 * NANOS_PER_SECOND
    &&& t.nanos >= NANOS_PER_SECOND ==> t.secs % 60 == 59
}

/// Whether `a` comes strictly before `b`.
pub open spec fn earlier(a: DateTime, b: DateTime) -> bool {
    a.secs < b.secs || (a.secs == b.secs && a.nanos < b.nanos)
}

/// Whether clock time `a` comes strictly before clock time `b`.
pub open spec fn earlier_in_day(a: TimeOfDay, b: TimeOfDay) -> bool {
    a.secs < b.secs || (a.secs == b.secs && a.nanos < b.nanos)
}

/// The place of `t` in time as one number: moments compare as their ranks do.
pub open spec fn moment_rank(t: DateTime) -> int {
    t.secs * 0x1_0000_0000 + t.nanos
}

/// The day (counted from 1970-01-01) on which `t` falls.
pub open spec fn day_number(t: DateTime) -> int {
    t.secs as int / SECONDS_PER_DAY as int
}

/// The seconds elapsed since the midnight that starts the day of `t`.
pub open spec fn seconds_into_day(t: DateTime) -> int {
    t.secs as int % SECONDS_PER_DAY as int
}

/// The clock time of `t`.
pub open spec fn time_of(t: DateTime) -> TimeOfDay {
    TimeOfDay { secs: seconds_into_day(t) as u32, nanos: t.nanos }
}

/// The day of the week of `t`, with Monday as 0 and Sunday as 6
/// (1970-01-01 was a Thursday).
pub open spec fn weekday_index(t: DateTime) -> int {
    (day_number(t) + 3) % 7
}

/// The whole seconds of the span from `from` to `to` as chrono's `signed_duration_since`
/// counts it (a leap second of one end is counted when the other end's clock time lies on
/// the far side of it), before the nanoseconds are taken into account.
pub open spec fn span_seconds(from: DateTime, to: DateTime) -> int {
    let leap_adjustment: int = if seconds_into_day(to) > seconds_into_day(from) && from.nanos
        >= NANOS_PER_SECOND {
        1
    } else if seconds_into_day(to) < seconds_into_day(from) && to.nanos >= NANOS_PER_SECOND {
        -1
    } else {
        0
    };
    (to.secs - from.secs) + leap_adjustment + (to.nanos - from.nanos) / (NANOS_PER_SECOND as int)
}

/// The nanoseconds of the span from `from` to `to` beyond [`span_seconds`].
pub open spec fn span_nanos(from: DateTime, to: DateTime) -> int {
    (to.nanos - from.nanos) % (NANOS_PER_SECOND as int)
}

/// The whole seconds from `from` to `to`, truncated toward zero (`TimeDelta::num_seconds`).
pub open spec fn seconds_between(from: DateTime, to: DateTime) -> int {
    let s = span_seconds(from, to);
    if s < 0 && span_nanos(from, to) > 0 {
        s + 1
    } else {
        s
    }
}

/// Whole minutes from `from` to `to`, truncated toward zero (negative when `to` is earlier),
/// as `(to - from).num_minutes()` counts them.
pub open spec fn minutes_between(from: DateTime, to: DateTime) -> int {
    let d = seconds_between(from, to);
    if d >= 0 {
        d / 60
    } else {
        -((-d) / 60)
    }
}

impl DateTime {
    /// The clock time of this moment.
    pub fn time(&self) -> (t: TimeOfDay)
        ensures
            t == time_of(*self),
            t.secs < SECONDS_PER_DAY,
    {
        let r = self.secs % SECONDS_PER_DAY;
        let secs: u32 = if r < 0 {
            (r + SECONDS_PER_DAY) as u32
        } else {
            r as u32
        };
        TimeOfDay { secs, nanos: self.nanos }
    }

    /// Whether this moment comes strictly before `other`.
    pub fn is_earlier(&self, other: &DateTime) -> (res: bool)
        ensures
            res == earlier(*self, *other),
    {
        self.secs < other.secs || (self.secs == other.secs && self.nanos < other.nanos)
    }

    /// Whole minutes from `self` to `later`, truncated toward zero (negative when `later`
    /// comes first).
    pub fn minutes_until(&self, later: &DateTime) -> (m: i64)
        ensures
            m == minutes_between(*self, *later),
    {
        let from_day = self.time();
        let to_day = later.time();
        let leap_adjustment: i128 = if to_day.secs > from_day.secs && self.nanos >= NANOS_PER_SECOND {
            1
        } else if to_day.secs < from_day.secs && later.nanos >= NANOS_PER_SECOND {
            -1
        } else {
            0
        };
        let frac: i128 = later.nanos as i128 - self.nanos as i128;
        let q: i128 = if frac >= 0 {
            frac / 1_000_000_000
        } else {
            -((-frac + 999_999_999) / 1_000_000_000)
        };
        let rem: i128 = frac - q * 1_000_000_000;
        assert(q == frac as int / (NANOS_PER_SECOND as int) && rem as int == frac as int % (
            NANOS_PER_SECOND as int))
            by (nonlinear_arith)
            requires
                -5_000_000_000 < frac < 5_000_000_000,
                frac >= 0 ==> q == frac / 1_000_000_000,
                frac < 0 ==> q == -((-frac + 999_999_999) / 1_000_000_000),
                rem == frac - q * 1_000_000_000,
        ;
        let s: i128 = later.secs as i128 - self.secs as i128 + leap_adjustment + q;
        let whole: i128 = if s < 0 && rem > 0 {
            s + 1
        } else {
            s
        };
        let m: i128 = whole / 60;
        m as i64
    }

    /// Whole minutes from `self` to `later` as an unsigned count; a negative span
    /// wraps around as the `as usize` cast of the signed count does.
    pub fn minutes_until_unsigned(&self, later: &DateTime) -> (m: usize)
        ensures
            m == minutes_between(*self, *later) as usize,
    {
        let signed = self.minutes_until(later);
        signed as usize
    }

    /// The day of the week, with Monday as 0 and Sunday as 6.
    pub fn weekday(&self) -> (w: u8)
        ensures
            w == weekday_index(*self),
    {
        let q = self.secs / SECONDS_PER_DAY;
        let r = self.secs % SECONDS_PER_DAY;
        let day: i64 = if r < 0 {
            q - 1
        } else {
            q
        };
        let w = (day % 7 + 7 + 3) % 7;
        w as u8
    }
}

impl TimeOfDay {
    /// The clock time `hour:minute:00`.
    pub fn from_hour_minute(hour: u32, minute: u32) -> (t: TimeOfDay)
        requires
            hour < 24,
            minute < 60,
        ensures
            t.secs == hour * 3600 + minute * 60,
            t.nanos == 0,
    {
        TimeOfDay { secs: hour * 3600 + minute * 60, nanos: 0 }
    }

    /// Whether this clock time comes strictly before `other`.
    pub fn is_earlier(&self, other: &TimeOfDay) -> (res: bool)
        ensures
            res == earlier_in_day(*self, *other),
    {
        self.secs < other.secs || (self.secs == other.secs && self.nanos < other.nanos)
    }
}

/// From a moment to any moment no earlier, chrono counts no negative span: the whole
/// seconds and the minutes between them are never negative.
pub proof fn lemma_span_not_negative(from: DateTime, to: DateTime)
    requires
        valid_moment(from),
        valid_moment(to),
        !earlier(to, from),
    ensures
        seconds_between(from, to) >= 0,
        minutes_between(from, to) >= 0,
{
    let fs = seconds_into_day(from);
    let ts = seconds_into_day(to);
    assert(to.secs == from.secs + 1 ==> (ts == fs + 1 || (fs == 86399 && ts == 0)));
}

/// From a start on a whole second, chrono counts the whole seconds to a moment `x` no
/// earlier as `x.secs - from.secs`, plus one when `x` lies in a leap second whose clock
/// time is not before that of `from`.
proof fn lemma_seconds_from_whole_second(from: DateTime, x: DateTime)
    requires
        from.nanos == 0,
        valid_moment(x),
        !earlier(x, from),
    ensures
        seconds_between(from, x) == (x.secs - from.secs) + if x.nanos >= NANOS_PER_SECOND
            && seconds_into_day(x) >= seconds_into_day(from) {
            1int
        } else {
            0int
        },
{
    assert((x.nanos as int) / (NANOS_PER_SECOND as int) == if x.nanos >= NANOS_PER_SECOND {
        1int
    } else {
        0int
    });
}

/// Away from leap seconds, chrono counts the whole seconds from `from` to a moment `x` no
/// earlier as the whole seconds of the plain difference, rounded down.
proof fn lemma_seconds_without_leap(from: DateTime, x: DateTime)
    requires
        from.nanos < NANOS_PER_SECOND,
        x.nanos < NANOS_PER_SECOND,
        !earlier(x, from),
    ensures
        seconds_between(from, x) == (x.secs - from.secs) + (x.nanos - from.nanos) / (
        NANOS_PER_SECOND as int),
        (x.nanos - from.nanos) / (NANOS_PER_SECOND as int) == if x.nanos >= from.nanos {
            0int
        } else {
            -1int
        },
{
    let d = x.nanos - from.nanos;
    assert(d / (NANOS_PER_SECOND as int) == if d >= 0 {
        0int
    } else {
        -1int
    });
}

/// Later moments lie no fewer minutes after a fixed start: for valid moments
/// `from <= a <= b`, the seconds and the minutes from `from` to `a` are at most those
/// from `from` to `b`, provided the start lies on a whole second or no leap second is
/// involved (chrono counts a leap second from one end of a span only, so a start in the
/// middle of a second combined with a leap second can step the count back).
pub proof fn lemma_minutes_grow(from: DateTime, a: DateTime, b: DateTime)
    requires
        valid_moment(from),
        valid_moment(a),
        valid_moment(b),
        !earlier(a, from),
        !earlier(b, a),
        from.nanos == 0 || (from.nanos < NANOS_PER_SECOND && a.nanos < NANOS_PER_SECOND && b.nanos
            < NANOS_PER_SECOND),
    ensures
        0 <= seconds_between(from, a) <= seconds_between(from, b),
        0 <= minutes_between(from, a) <= minutes_between(from, b),
{
    if from.nanos == 0 {
        lemma_seconds_from_whole_second(from, a);
        lemma_seconds_from_whole_second(from, b);
    } else {
        lemma_seconds_without_leap(from, a);
        lemma_seconds_without_leap(from, b);
    }
    let x = seconds_between(from, a);
    let y = seconds_between(from, b);
    assert(0 <= x <= y);
    assert(x / 60 <= y / 60) by (nonlinear_arith)
        requires
            0 <= x <= y,
    ;
}

} // verus!
