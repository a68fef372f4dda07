//! Dates, times of day and spans of time as plain numbers.
//!
//! A date is a number of days since 1 January 1970, a time of day is a number of
//! seconds since midnight with a number of nanoseconds, and a span is a signed
//! number of nanoseconds. The values are those that `chrono` can hold, so each
//! of them can be handed to it; the arithmetic on them is `chrono`'s own.

use crate::chrono_bridge::{
    counted_from, date_plus, date_since, is_date, is_span, is_time, time_distance, time_plus,
    time_since, whole_days,
};
use vstd::prelude::*;

verus! {

/// The day number of the first date: 1 January of the year -262143.
pub const DATE_MIN: i32 = -96_465_292;

/// The day number of the last date: 31 December of the year 262142.
pub const DATE_MAX: i32 = 95_026_236;

/// The nanoseconds of a second.
pub const NANOS_PER_SEC: i128 = 1_000_000_000;

/// The nanoseconds of a day.
pub const NANOS_PER_DAY: i128 = 86_400_000_000_000;

/// The nanoseconds of the longest span, which is `i64::MAX` milliseconds.
pub const SPAN_MAX: i128 = 9_223_372_036_854_775_807_000_000;

/// A calendar date without a time zone.
#[derive(Clone, Copy, Debug, PartialEq, Eq, Hash)]
pub struct CalendarDate {
    days: i32,
}

impl CalendarDate {
    /// The days from 1 January 1970 to this date.
    pub closed spec fn days(self) -> int {
        self.days as int
    }

    /// A date lies between the first and the last date.
    #[verifier::type_invariant]
    pub closed spec fn valid(self) -> bool {
        DATE_MIN <= self.days <= DATE_MAX
    }

    /// What `valid` says, over the day number.
    pub proof fn lemma_valid(self)
        ensures
            self.valid() <==> is_date(self.days()),
    {
    }

    /// A date is known by its day number.
    pub proof fn lemma_days_is_injective(self, other: Self)
        requires
            self.days() == other.days(),
        ensures
            self == other,
    {
    }

    /// The date that lies `days` days after 1 January 1970, if there is one.
    pub fn from_epoch_days(days: i32) -> (date: Option<Self>)
        ensures
            date is Some <==> DATE_MIN <= days <= DATE_MAX,
            date matches Some(d) ==> d.days() == days && d.valid(),
    {
        if DATE_MIN <= days && days <= DATE_MAX {
            Some(CalendarDate { days })
        } else {
            None
        }
    }

    /// The days from 1 January 1970 to this date.
    pub fn epoch_days(&self) -> (days: i32)
        ensures
            days == self.days(),
            DATE_MIN <= days <= DATE_MAX,
    {
        proof {
            use_type_invariant(self);
        }
        self.days
    }

    /// The first date.
    pub fn min() -> (date: Self)
        ensures
            date.days() == DATE_MIN,
            date.valid(),
    {
        CalendarDate { days: DATE_MIN }
    }

    /// The last date.
    pub fn max() -> (date: Self)
        ensures
            date.days() == DATE_MAX,
            date.valid(),
    {
        CalendarDate { days: DATE_MAX }
    }
}

/// A time of day without a time zone.
///
/// A leap second is the last second of a minute with a billion nanoseconds or
/// more: 23:59:60.5 is second 86399 with 1 500 000 000 nanoseconds.
#[derive(Clone, Copy, Debug, PartialEq, Eq, Hash)]
pub struct ClockTime {
    secs: u32,
    frac: u32,
}

impl ClockTime {
    /// The whole seconds since midnight.
    pub closed spec fn secs(self) -> int {
        self.secs as int
    }

    /// The nanoseconds since the whole second; a billion or more in a leap second.
    pub closed spec fn frac(self) -> int {
        self.frac as int
    }

    /// The parts of a time of day are in their ranges.
    #[verifier::type_invariant]
    pub closed spec fn valid(self) -> bool {
        is_time(self.secs as int, self.frac as int)
    }

    /// What `valid` says, over the parts.
    pub proof fn lemma_valid(self)
        ensures
            self.valid() <==> is_time(self.secs(), self.frac()),
    {
    }

    /// A time of day is known by its parts.
    pub proof fn lemma_parts_are_injective(self, other: Self)
        requires
            self.secs() == other.secs(),
            self.frac() == other.frac(),
        ensures
            self == other,
    {
    }

    /// The time of day with these parts, if they are a time of day.
    pub fn from_parts(secs: u32, frac: u32) -> (time: Option<Self>)
        ensures
            time is Some <==> is_time(secs as int, frac as int),
            time matches Some(t) ==> t.secs() == secs && t.frac() == frac && t.valid(),
    {
        if secs < 86_400 && frac < 2_000_000_000 && (frac < 1_000_000_000 || secs % 60 == 59) {
            Some(ClockTime { secs, frac })
        } else {
            None
        }
    }

    /// The whole seconds since midnight.
    pub fn seconds_from_midnight(&self) -> (secs: u32)
        ensures
            secs == self.secs(),
            secs < 86_400,
    {
        proof {
            use_type_invariant(self);
        }
        self.secs
    }

    /// The nanoseconds since the whole second.
    pub fn nanosecond(&self) -> (frac: u32)
        ensures
            frac == self.frac(),
            is_time(self.secs(), self.frac()),
    {
        proof {
            use_type_invariant(self);
        }
        self.frac
    }

    /// Midnight.
    pub fn midnight() -> (time: Self)
        ensures
            time.secs() == 0,
            time.frac() == 0,
            time.valid(),
    {
        ClockTime { secs: 0, frac: 0 }
    }
}

/// A date and a time of day without a time zone.
#[derive(Clone, Copy, Debug, PartialEq, Eq, Hash)]
pub struct CivilDateTime {
    pub date: CalendarDate,
    pub time: ClockTime,
}

impl CivilDateTime {
    /// The date and the time of day are valid.
    pub open spec fn valid(self) -> bool {
        self.date.valid() && self.time.valid()
    }
}

/// A date and a time of day at a fixed offset from UTC.
#[derive(Clone, Copy, Debug, PartialEq, Eq, Hash)]
pub struct ZonedDateTime {
    utc: CivilDateTime,
    offset: i32,
}

impl ZonedDateTime {
    /// The date and time in UTC.
    pub closed spec fn utc(self) -> CivilDateTime {
        self.utc
    }

    /// The seconds that local time is ahead of UTC.
    pub closed spec fn offset(self) -> int {
        self.offset as int
    }

    /// The offset is less than a day either way.
    #[verifier::type_invariant]
    pub closed spec fn valid(self) -> bool {
        -86_400 < self.offset < 86_400
    }

    /// What `valid` says, over the offset.
    pub proof fn lemma_valid(self)
        ensures
            self.valid() <==> -86_400 < self.offset() < 86_400,
    {
    }

    /// A value is known by its parts.
    pub proof fn lemma_parts_are_injective(self, other: Self)
        requires
            self.utc() == other.utc(),
            self.offset() == other.offset(),
        ensures
            self == other,
    {
    }

    /// The value with this date and time in UTC at this offset, if the offset is
    /// less than a day either way.
    pub fn from_utc(utc: CivilDateTime, offset: i32) -> (at: Option<Self>)
        ensures
            at is Some <==> -86_400 < offset < 86_400,
            at matches Some(z) ==> z.utc() == utc && z.offset() == offset && z.valid(),
    {
        if -86_400 < offset && offset < 86_400 {
            Some(ZonedDateTime { utc, offset })
        } else {
            None
        }
    }

    /// The date and time in UTC.
    pub fn naive_utc(&self) -> (utc: CivilDateTime)
        ensures
            utc == self.utc(),
    {
        self.utc
    }

    /// The seconds that local time is ahead of UTC.
    pub fn local_minus_utc(&self) -> (offset: i32)
        ensures
            offset == self.offset(),
            -86_400 < offset < 86_400,
    {
        proof {
            use_type_invariant(self);
        }
        self.offset
    }
}

/// A signed span of time, of at most `i64::MAX` milliseconds either way.
#[derive(Clone, Copy, Debug, PartialEq, Eq, Hash)]
pub struct TimeSpan {
    nanos: i128,
}

impl TimeSpan {
    /// The nanoseconds of the span.
    pub closed spec fn nanos(self) -> int {
        self.nanos as int
    }

    /// A span is at most the longest span either way.
    #[verifier::type_invariant]
    pub closed spec fn valid(self) -> bool {
        -SPAN_MAX <= self.nanos <= SPAN_MAX
    }

    /// What `valid` says, over the nanoseconds.
    pub proof fn lemma_valid(self)
        ensures
            self.valid() <==> -SPAN_MAX <= self.nanos() <= SPAN_MAX,
    {
    }

    /// The span of `nanos` nanoseconds, if it is not too long.
    pub fn from_nanos(nanos: i128) -> (span: Option<Self>)
        ensures
            span is Some <==> -SPAN_MAX <= nanos <= SPAN_MAX,
            span matches Some(s) ==> s.nanos() == nanos && s.valid(),
    {
        if -SPAN_MAX <= nanos && nanos <= SPAN_MAX {
            Some(TimeSpan { nanos })
        } else {
            None
        }
    }

    /// The span of no time.
    pub fn zero() -> (span: Self)
        ensures
            span.nanos() == 0,
            span.valid(),
    {
        TimeSpan { nanos: 0 }
    }

    /// The nanoseconds of the span.
    pub fn as_nanos(&self) -> (nanos: i128)
        ensures
            nanos == self.nanos(),
            -SPAN_MAX <= nanos <= SPAN_MAX,
    {
        proof {
            use_type_invariant(self);
        }
        self.nanos
    }
}

/// What adding a span of `span` nanoseconds to the time of day `(secs, frac)`
/// gives: the seconds since midnight, the nanoseconds, and the seconds of the
/// whole days that were passed. The time wraps round at midnight, and a leap
/// second is left or kept as `counted_from` says.
pub open spec fn time_sum(secs: int, frac: int, span: int) -> (int, int, int) {
    match counted_from(secs, frac, span) {
        Some((from_secs, from_frac)) => {
            let total = from_secs * 1_000_000_000 + from_frac + span;
            let all_secs = total / 1_000_000_000;
            (all_secs % 86_400, total % 1_000_000_000, all_secs - all_secs % 86_400)
        },
        None => (secs, frac + span, 0),
    }
}

/// Numbers that add up like the parts of a time of day are those parts.
proof fn lemma_time_parts(secs: int, frac: int, passed: int, total: int)
    requires
        0 <= secs < 86_400,
        0 <= frac < 1_000_000_000,
        passed % 86_400 == 0,
        (passed + secs) * 1_000_000_000 + frac == total,
    ensures
        frac == total % 1_000_000_000,
        passed + secs == total / 1_000_000_000,
        secs == (total / 1_000_000_000) % 86_400,
{
    let all_secs = passed + secs;
    vstd::arithmetic::div_mod::lemma_fundamental_div_mod_converse(
        total,
        1_000_000_000,
        all_secs,
        frac,
    );
    let whole = passed / 86_400;
    vstd::arithmetic::div_mod::lemma_fundamental_div_mod(passed, 86_400);
    vstd::arithmetic::div_mod::lemma_fundamental_div_mod_converse(all_secs, 86_400, whole, secs);
}

impl TimeSpan {
    /// The whole seconds of the span, rounded down, and the nanoseconds on top
    /// of them.
    pub fn split(&self) -> (parts: (i64, u32))
        ensures
            is_span(parts.0 as int, parts.1 as int),
            parts.0 * 1_000_000_000 + parts.1 == self.nanos(),
    {
        let nanos = self.as_nanos();
        if nanos >= 0 {
            let secs = nanos / NANOS_PER_SEC;
            let rest = nanos % NANOS_PER_SEC;
            (secs as i64, rest as u32)
        } else {
            let size: u128 = (-nanos) as u128;
            let secs = size / 1_000_000_000;
            let rest = size % 1_000_000_000;
            if rest == 0 {
                (-(secs as i64), 0)
            } else {
                (-(secs as i64) - 1, (1_000_000_000 - rest) as u32)
            }
        }
    }

    /// The span of `whole` seconds and `sub` nanoseconds.
    fn join(whole: i64, sub: i32) -> (span: Self)
        requires
            -SPAN_MAX <= whole * 1_000_000_000 + sub <= SPAN_MAX,
        ensures
            span.nanos() == whole * 1_000_000_000 + sub,
    {
        TimeSpan { nanos: (whole as i128) * NANOS_PER_SEC + (sub as i128) }
    }

    /// Whether the span goes back in time.
    pub fn is_negative(&self) -> (negative: bool)
        ensures
            negative == (self.nanos() < 0),
    {
        self.nanos < 0
    }
}

impl CalendarDate {
    /// The span from `earlier` to this date: the whole days between them.
    pub fn since(&self, earlier: &Self) -> (span: TimeSpan)
        ensures
            span.nanos() == (self.days() - earlier.days()) * NANOS_PER_DAY,
    {
        proof {
            use_type_invariant(self);
            use_type_invariant(earlier);
        }
        let (whole, sub) = date_since(self.days, earlier.days);
        TimeSpan::join(whole, sub)
    }

    /// This date moved by the whole days of `span`, rounded towards zero, if
    /// that is still a date.
    pub fn plus(&self, span: &TimeSpan) -> (moved: Option<Self>)
        ensures
            match moved {
                Some(date) => date.days() == self.days() + whole_days(span.nanos()) && is_date(
                    date.days(),
                ),
                None => !is_date(self.days() + whole_days(span.nanos())),
            },
    {
        proof {
            use_type_invariant(self);
        }
        let (secs, nanos) = span.split();
        match date_plus(self.days, secs, nanos) {
            Some(days) => Some(CalendarDate { days }),
            None => None,
        }
    }
}

impl ClockTime {
    /// The span from `earlier` to this time of day.
    pub fn since(&self, earlier: &Self) -> (span: TimeSpan)
        ensures
            span.nanos() == time_distance(self.secs(), self.frac(), earlier.secs(), earlier.frac()),
    {
        proof {
            use_type_invariant(self);
            use_type_invariant(earlier);
        }
        let (whole, sub) = time_since(self.secs, self.frac, earlier.secs, earlier.frac);
        TimeSpan::join(whole, sub)
    }

    /// This time of day moved by `span`, wrapping round at midnight, with the
    /// seconds of the whole days that were passed.
    pub fn plus(&self, span: &TimeSpan) -> (moved: (Self, i64))
        ensures
            (moved.0.secs(), moved.0.frac(), moved.1 as int) == time_sum(
                self.secs(),
                self.frac(),
                span.nanos(),
            ),
    {
        proof {
            use_type_invariant(self);
        }
        let (secs, nanos) = span.split();
        let (new_secs, new_frac, passed) = time_plus(self.secs, self.frac, secs, nanos);
        proof {
            if let Some((from_secs, from_frac)) = counted_from(
                self.secs as int,
                self.frac as int,
                span.nanos(),
            ) {
                lemma_time_parts(
                    new_secs as int,
                    new_frac as int,
                    passed as int,
                    from_secs * 1_000_000_000 + from_frac + span.nanos(),
                );
            }
        }
        (ClockTime { secs: new_secs, frac: new_frac }, passed)
    }
}

impl CalendarDate {
    /// Whether this date is `other` or comes before it.
    pub open spec fn precedes(self, other: Self) -> bool {
        self.days() <= other.days()
    }

    /// Whether this date is `other` or comes before it.
    pub fn le(&self, other: &Self) -> (b: bool)
        ensures
            b == self.precedes(*other),
    {
        self.days <= other.days
    }
}

impl ClockTime {
    /// Whether this time of day is `other` or comes before it: by the seconds,
    /// then by the nanoseconds.
    pub open spec fn precedes(self, other: Self) -> bool {
        self.secs() < other.secs() || (self.secs() == other.secs() && self.frac() <= other.frac())
    }

    /// Whether this time of day is `other` or comes before it.
    pub fn le(&self, other: &Self) -> (b: bool)
        ensures
            b == self.precedes(*other),
    {
        self.secs < other.secs || (self.secs == other.secs && self.frac <= other.frac)
    }
}

/// The nanoseconds from `earlier` to `later`: the whole days between the dates
/// and the span between the times of day.
pub open spec fn civil_distance(later: CivilDateTime, earlier: CivilDateTime) -> int {
    (later.date.days() - earlier.date.days()) * 86_400_000_000_000 + time_distance(
        later.time.secs(),
        later.time.frac(),
        earlier.time.secs(),
        earlier.time.frac(),
    )
}

impl CivilDateTime {
    /// Whether this date and time is `other` or comes before it: by the date,
    /// then by the time of day.
    pub open spec fn precedes(self, other: Self) -> bool {
        self.date.days() < other.date.days() || (self.date.days() == other.date.days()
            && self.time.precedes(other.time))
    }

    /// Whether this date and time is `other` or comes before it.
    pub fn le(&self, other: &Self) -> (b: bool)
        ensures
            b == self.precedes(*other),
    {
        let days = self.date.epoch_days();
        let other_days = other.date.epoch_days();
        days < other_days || (days == other_days && self.time.le(&other.time))
    }

    /// The span from `earlier` to this date and time.
    pub fn since(&self, earlier: &Self) -> (span: TimeSpan)
        ensures
            span.nanos() == civil_distance(*self, *earlier),
    {
        let days = self.date.since(&earlier.date);
        let rest = self.time.since(&earlier.time);
        proof {
            use_type_invariant(&self.date);
            use_type_invariant(&earlier.date);
            use_type_invariant(&self.time);
            use_type_invariant(&earlier.time);
        }
        TimeSpan { nanos: days.as_nanos() + rest.as_nanos() }
    }

    /// This date and time moved by `span`, if the date is still a date: the
    /// time of day moves and wraps round at midnight, and the date moves by
    /// the days that were passed.
    pub fn plus(&self, span: &TimeSpan) -> (moved: Option<Self>)
        ensures
            ({
                let sum = time_sum(self.time.secs(), self.time.frac(), span.nanos());
                let days = self.date.days() + whole_days(sum.2 * 1_000_000_000);
                match moved {
                    Some(at) => {
                        &&& is_date(days)
                        &&& at.date.days() == days
                        &&& at.time.secs() == sum.0
                        &&& at.time.frac() == sum.1
                    },
                    None => !is_date(days),
                }
            }),
    {
        let (time, passed) = self.time.plus(span);
        proof {
            use_type_invariant(&self.date);
        }
        match TimeSpan::from_nanos((passed as i128) * NANOS_PER_SEC) {
            None => None,
            Some(passed) => match self.date.plus(&passed) {
                None => None,
                Some(date) => Some(CivilDateTime { date, time }),
            },
        }
    }
}

impl ZonedDateTime {
    /// Whether this date and time is `other` or comes before it, as moments:
    /// the offsets play no part.
    pub open spec fn precedes(self, other: Self) -> bool {
        self.utc().precedes(other.utc())
    }

    /// Whether this date and time is `other` or comes before it, as moments.
    pub fn le(&self, other: &Self) -> (b: bool)
        ensures
            b == self.precedes(*other),
    {
        self.utc.le(&other.utc)
    }

    /// The span from `earlier` to this date and time, as moments.
    pub fn since(&self, earlier: &Self) -> (span: TimeSpan)
        ensures
            span.nanos() == civil_distance(self.utc(), earlier.utc()),
    {
        self.utc.since(&earlier.utc)
    }

    /// This date and time moved by `span`, at the same offset, if the date in
    /// UTC is still a date.
    pub fn plus(&self, span: &TimeSpan) -> (moved: Option<Self>)
        ensures
            ({
                let sum = time_sum(self.utc().time.secs(), self.utc().time.frac(), span.nanos());
                let days = self.utc().date.days() + whole_days(sum.2 * 1_000_000_000);
                match moved {
                    Some(at) => {
                        &&& is_date(days)
                        &&& at.offset() == self.offset()
                        &&& at.utc().date.days() == days
                        &&& at.utc().time.secs() == sum.0
                        &&& at.utc().time.frac() == sum.1
                    },
                    None => !is_date(days),
                }
            }),
    {
        proof {
            use_type_invariant(self);
        }
        match self.utc.plus(span) {
            None => None,
            Some(utc) => Some(ZonedDateTime { utc, offset: self.offset }),
        }
    }

    /// The seconds since local midnight, which may lie on the day before or
    /// the day after the date in UTC.
    pub open spec fn local_secs(self) -> int {
        (self.utc().time.secs() + self.offset()) % 86_400
    }

    /// The day number of the local date.
    pub open spec fn local_days(self) -> int {
        self.utc().date.days() + (self.utc().time.secs() + self.offset()) / 86_400
    }

    /// Whether the local date and time can be held: the local date is a date,
    /// and a leap second is still the last second of a minute.
    pub open spec fn has_local(self) -> bool {
        &&& is_date(self.local_days())
        &&& is_time(self.local_secs(), self.utc().time.frac())
    }

    /// Whether the local date can be held: it is a date.
    pub open spec fn has_local_date(self) -> bool {
        is_date(self.local_days())
    }

    /// Whether the local time of day can be held: a leap second is still the
    /// last second of a minute.
    pub open spec fn has_local_time(self) -> bool {
        is_time(self.local_secs(), self.utc().time.frac())
    }

    /// The local time of day: the time of day in UTC moved by the offset, with
    /// the nanoseconds as they are.
    pub fn local_time(&self) -> (time: Option<ClockTime>)
        ensures
            time is Some <==> self.has_local_time(),
            time matches Some(t) ==> t.secs() == self.local_secs() && t.frac()
                == self.utc().time.frac(),
    {
        proof {
            use_type_invariant(self);
        }
        let secs = self.utc.time.seconds_from_midnight() as i32 + self.offset;
        let local: i32 = if secs < 0 {
            secs + 86_400
        } else if secs >= 86_400 {
            secs - 86_400
        } else {
            secs
        };
        ClockTime::from_parts(local as u32, self.utc.time.nanosecond())
    }

    /// The local date: the date in UTC, or the day before or after it where
    /// the offset carries the time of day over midnight.
    pub fn local_date(&self) -> (date: Option<CalendarDate>)
        ensures
            date is Some <==> self.has_local_date(),
            date matches Some(d) ==> d.days() == self.local_days(),
    {
        proof {
            use_type_invariant(self);
        }
        let secs = self.utc.time.seconds_from_midnight() as i32 + self.offset;
        let shift: i32 = if secs < 0 {
            -1
        } else if secs >= 86_400 {
            1
        } else {
            0
        };
        CalendarDate::from_epoch_days(self.utc.date.epoch_days() + shift)
    }

    /// The local date and time: the date and time in UTC moved by the offset.
    pub fn local(&self) -> (at: Option<CivilDateTime>)
        ensures
            at is Some <==> self.has_local(),
            at matches Some(l) ==> {
                &&& l.date.days() == self.local_days()
                &&& l.time.secs() == self.local_secs()
                &&& l.time.frac() == self.utc().time.frac()
            },
    {
        match (self.local_date(), self.local_time()) {
            (Some(date), Some(time)) => Some(CivilDateTime { date, time }),
            _ => None,
        }
    }
}

} // verus!
