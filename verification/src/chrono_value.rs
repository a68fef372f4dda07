//! Date and time values of four granularities, and their reading and writing
//! under a pattern.

use crate::calendar::{
    civil_distance, time_sum, CalendarDate, CivilDateTime, ClockTime, TimeSpan, ZonedDateTime,
};
use crate::chrono_bridge::{
    civil_text, date_text, format_civil, format_date, format_time, format_zoned, is_date, is_time,
    parse_date, parse_time, parse_zoned, parsed_date, parsed_time, parsed_zoned, time_distance,
    time_text, utc_now, whole_days, zoned_text,
};
use vstd::prelude::*;

verus! {

/// What can go wrong with a date or time value, with the values that it went
/// wrong with.
#[derive(Clone, Debug, PartialEq, Eq)]
pub enum ChronoError {
    /// The text `content` is no value of the granularity under `pattern`.
    Unparseable { content: String, pattern: String },
    /// `pattern` cannot write `value`.
    Unformattable { value: ChronoValue, pattern: String },
    /// `value` moved by `span` lies outside the range of dates.
    OutOfRange { value: ChronoValue, span: TimeSpan },
    /// `moment` cannot be held in the granularity `type_`.
    NoDefault { moment: ZonedDateTime, type_: ChronoValueType },
    /// `begin` and `end` belong together and have different granularities, or
    /// not the granularity that was asked for.
    TypeMismatch { begin: ChronoValue, end: ChronoValue },
    /// `begin` comes after `end`.
    BeginAfterEnd { begin: ChronoValue, end: ChronoValue },
}

/// An error as plain values: texts as sequences of characters, values as
/// their views, a span as its nanoseconds.
pub enum ChronoFault {
    Unparseable { content: Seq<char>, pattern: Seq<char> },
    Unformattable { value: ChronoView, pattern: Seq<char> },
    OutOfRange { value: ChronoView, span: int },
    NoDefault { moment: ChronoView, type_: ChronoValueType },
    TypeMismatch { begin: ChronoView, end: ChronoView },
    BeginAfterEnd { begin: ChronoView, end: ChronoView },
}

impl View for ChronoError {
    type V = ChronoFault;

    open spec fn view(&self) -> ChronoFault {
        match *self {
            ChronoError::Unparseable { content, pattern } => ChronoFault::Unparseable {
                content: content@,
                pattern: pattern@,
            },
            ChronoError::Unformattable { value, pattern } => ChronoFault::Unformattable {
                value: value@,
                pattern: pattern@,
            },
            ChronoError::OutOfRange { value, span } => ChronoFault::OutOfRange {
                value: value@,
                span: span.nanos(),
            },
            ChronoError::NoDefault { moment, type_ } => ChronoFault::NoDefault {
                moment: ChronoValue::DateTime(moment)@,
                type_,
            },
            ChronoError::TypeMismatch { begin, end } => ChronoFault::TypeMismatch {
                begin: begin@,
                end: end@,
            },
            ChronoError::BeginAfterEnd { begin, end } => ChronoFault::BeginAfterEnd {
                begin: begin@,
                end: end@,
            },
        }
    }
}

/// The granularity of a date or time value.
#[derive(Clone, Copy, Debug, PartialEq, Eq, Structural)]
pub enum ChronoValueType {
    /// A calendar date.
    NaiveDate,
    /// A time of day.
    NaiveTime,
    /// A date with a time of day.
    NaiveDateTime,
    /// A date with a time of day at a fixed offset from UTC.
    DateTime,
}

impl Default for ChronoValueType {
    fn default() -> (type_: Self)
        ensures
            type_ == ChronoValueType::DateTime,
    {
        ChronoValueType::DateTime
    }
}

impl ChronoValueType {
    /// The name of the granularity in words.
    pub fn to_text(&self) -> (text: String)
        ensures
            text@ == match self {
                ChronoValueType::NaiveDate => "naive date"@,
                ChronoValueType::NaiveTime => "naive time"@,
                ChronoValueType::NaiveDateTime => "naive date time"@,
                ChronoValueType::DateTime => "date time"@,
            },
    {
        match self {
            ChronoValueType::NaiveDate => "naive date".to_owned(),
            ChronoValueType::NaiveTime => "naive time".to_owned(),
            ChronoValueType::NaiveDateTime => "naive date time".to_owned(),
            ChronoValueType::DateTime => "date time".to_owned(),
        }
    }
}

/// A date or time value, of one of four granularities.
#[derive(Clone, Copy, Debug, PartialEq, Eq, Hash)]
pub enum ChronoValue {
    /// A calendar date.
    NaiveDate(CalendarDate),
    /// A time of day.
    NaiveTime(ClockTime),
    /// A date with a time of day.
    NaiveDateTime(CivilDateTime),
    /// A date with a time of day at a fixed offset from UTC.
    DateTime(ZonedDateTime),
}

/// A date or time value as plain numbers: the days since 1 January 1970, the
/// seconds since midnight, the nanoseconds since the whole second, and the
/// seconds that local time is ahead of UTC. The date and time of a `DateTime`
/// are those in UTC.
pub enum ChronoView {
    NaiveDate { days: int },
    NaiveTime { secs: int, frac: int },
    NaiveDateTime { days: int, secs: int, frac: int },
    DateTime { days: int, secs: int, frac: int, offset: int },
}

impl ChronoView {
    /// Whether the numbers are in the ranges of a date or time value.
    pub open spec fn valid(self) -> bool {
        match self {
            ChronoView::NaiveDate { days } => is_date(days),
            ChronoView::NaiveTime { secs, frac } => is_time(secs, frac),
            ChronoView::NaiveDateTime { days, secs, frac } => is_date(days) && is_time(secs, frac),
            ChronoView::DateTime { days, secs, frac, offset } => {
                &&& is_date(days)
                &&& is_time(secs, frac)
                &&& -86_400 < offset < 86_400
            },
        }
    }
}

impl ChronoView {
    /// Whether the value with this view is the one with the view `other` or
    /// comes before it. Values of one granularity are ordered in time, by the
    /// day, then the second, then the nanosecond, a `DateTime` as a moment;
    /// values of different granularities are ordered by granularity.
    pub open spec fn precedes(self, other: Self) -> bool {
        match (self, other) {
            (ChronoView::NaiveDate { days: a }, ChronoView::NaiveDate { days: b }) => a <= b,
            (
                ChronoView::NaiveTime { secs: a, frac: x },
                ChronoView::NaiveTime { secs: b, frac: y },
            ) => a < b || (a == b && x <= y),
            (
                ChronoView::NaiveDateTime { days: d, secs: a, frac: x },
                ChronoView::NaiveDateTime { days: e, secs: b, frac: y },
            ) => d < e || (d == e && (a < b || (a == b && x <= y))),
            (
                ChronoView::DateTime { days: d, secs: a, frac: x, offset: _ },
                ChronoView::DateTime { days: e, secs: b, frac: y, offset: _ },
            ) => d < e || (d == e && (a < b || (a == b && x <= y))),
            _ => self.rank() < other.rank(),
        }
    }

    /// The place of the granularity of the value in the order of the
    /// granularities: dates first, then times of day, then dates with a time,
    /// then dates with a time at an offset.
    pub open spec fn rank(self) -> int {
        match self {
            ChronoView::NaiveDate { .. } => 0,
            ChronoView::NaiveTime { .. } => 1,
            ChronoView::NaiveDateTime { .. } => 2,
            ChronoView::DateTime { .. } => 3,
        }
    }

    /// The granularity of the value.
    pub open spec fn kind(self) -> ChronoValueType {
        match self {
            ChronoView::NaiveDate { .. } => ChronoValueType::NaiveDate,
            ChronoView::NaiveTime { .. } => ChronoValueType::NaiveTime,
            ChronoView::NaiveDateTime { .. } => ChronoValueType::NaiveDateTime,
            ChronoView::DateTime { .. } => ChronoValueType::DateTime,
        }
    }

    /// The same moment at the offset of `other`, for two values at an offset;
    /// any other value as it is.
    pub open spec fn at_offset_of(self, other: Self) -> Self {
        match (self, other) {
            (
                ChronoView::DateTime { days, secs, frac, offset: _ },
                ChronoView::DateTime { offset, .. },
            ) => ChronoView::DateTime { days, secs, frac, offset },
            _ => self,
        }
    }

    /// The day number of the date of the value, in UTC for a `DateTime`; none
    /// for a time of day.
    pub open spec fn day(self) -> int {
        match self {
            ChronoView::NaiveDate { days } => days,
            ChronoView::NaiveTime { .. } => 0,
            ChronoView::NaiveDateTime { days, .. } => days,
            ChronoView::DateTime { days, .. } => days,
        }
    }

    /// The whole seconds since midnight of the time of day of the value; none
    /// for a date.
    pub open spec fn second(self) -> int {
        match self {
            ChronoView::NaiveDate { .. } => 0,
            ChronoView::NaiveTime { secs, .. } => secs,
            ChronoView::NaiveDateTime { secs, .. } => secs,
            ChronoView::DateTime { secs, .. } => secs,
        }
    }

    /// Whether the time of day of the value lies in a leap second.
    pub open spec fn in_leap_second(self) -> bool {
        match self {
            ChronoView::NaiveDate { .. } => false,
            ChronoView::NaiveTime { frac, .. } => frac >= 1_000_000_000,
            ChronoView::NaiveDateTime { frac, .. } => frac >= 1_000_000_000,
            ChronoView::DateTime { frac, .. } => frac >= 1_000_000_000,
        }
    }
}

impl View for ChronoValue {
    type V = ChronoView;

    open spec fn view(&self) -> ChronoView {
        match *self {
            ChronoValue::NaiveDate(date) => ChronoView::NaiveDate { days: date.days() },
            ChronoValue::NaiveTime(time) => ChronoView::NaiveTime {
                secs: time.secs(),
                frac: time.frac(),
            },
            ChronoValue::NaiveDateTime(at) => ChronoView::NaiveDateTime {
                days: at.date.days(),
                secs: at.time.secs(),
                frac: at.time.frac(),
            },
            ChronoValue::DateTime(at) => ChronoView::DateTime {
                days: at.utc().date.days(),
                secs: at.utc().time.secs(),
                frac: at.utc().time.frac(),
                offset: at.offset(),
            },
        }
    }
}

impl ChronoValue {
    /// Whether the parts of the value are in their ranges. Every value that a
    /// program holds is valid.
    pub open spec fn valid(self) -> bool {
        match self {
            ChronoValue::NaiveDate(date) => date.valid(),
            ChronoValue::NaiveTime(time) => time.valid(),
            ChronoValue::NaiveDateTime(at) => at.valid(),
            ChronoValue::DateTime(at) => at.valid() && at.utc().valid(),
        }
    }

    /// A valid value has a valid view.
    pub proof fn lemma_view_is_valid(self)
        requires
            self.valid(),
        ensures
            self@.valid(),
    {
        match self {
            ChronoValue::NaiveDate(date) => {
                date.lemma_valid();
            },
            ChronoValue::NaiveTime(time) => {
                time.lemma_valid();
            },
            ChronoValue::NaiveDateTime(at) => {
                at.date.lemma_valid();
                at.time.lemma_valid();
            },
            ChronoValue::DateTime(at) => {
                at.lemma_valid();
                at.utc().date.lemma_valid();
                at.utc().time.lemma_valid();
            },
        }
    }

    /// A value is known by its view.
    pub proof fn lemma_view_is_injective(self, other: Self)
        requires
            self@ == other@,
        ensures
            self == other,
    {
        match (self, other) {
            (ChronoValue::NaiveDate(a), ChronoValue::NaiveDate(b)) => {
                a.lemma_days_is_injective(b);
            },
            (ChronoValue::NaiveTime(a), ChronoValue::NaiveTime(b)) => {
                a.lemma_parts_are_injective(b);
            },
            (ChronoValue::NaiveDateTime(a), ChronoValue::NaiveDateTime(b)) => {
                a.date.lemma_days_is_injective(b.date);
                a.time.lemma_parts_are_injective(b.time);
            },
            (ChronoValue::DateTime(a), ChronoValue::DateTime(b)) => {
                a.utc().date.lemma_days_is_injective(b.utc().date);
                a.utc().time.lemma_parts_are_injective(b.utc().time);
                a.lemma_parts_are_injective(b);
            },
            _ => {},
        }
    }

    /// The granularity of the value.
    pub open spec fn spec_type(self) -> ChronoValueType {
        match self {
            ChronoValue::NaiveDate(_) => ChronoValueType::NaiveDate,
            ChronoValue::NaiveTime(_) => ChronoValueType::NaiveTime,
            ChronoValue::NaiveDateTime(_) => ChronoValueType::NaiveDateTime,
            ChronoValue::DateTime(_) => ChronoValueType::DateTime,
        }
    }

    /// The granularity of the value.
    pub fn type_(&self) -> (type_: ChronoValueType)
        ensures
            type_ == self.spec_type(),
    {
        match self {
            ChronoValue::DateTime(_) => ChronoValueType::DateTime,
            ChronoValue::NaiveDateTime(_) => ChronoValueType::NaiveDateTime,
            ChronoValue::NaiveTime(_) => ChronoValueType::NaiveTime,
            ChronoValue::NaiveDate(_) => ChronoValueType::NaiveDate,
        }
    }

    /// The granularity that the two values share, if they share one.
    pub fn common_variant(&self, other: &Self) -> (common: Option<ChronoValueType>)
        ensures
            common == if self.spec_type() == other.spec_type() {
                Some(self.spec_type())
            } else {
                None
            },
    {
        if self.type_() == other.type_() {
            Some(self.type_())
        } else {
            None
        }
    }

    /// Whether this value is `other` or comes before it. Values of one
    /// granularity are ordered in time, a `DateTime` as a moment; values of
    /// different granularities are ordered by granularity.
    pub open spec fn precedes(self, other: Self) -> bool {
        self@.precedes(other@)
    }

    /// Whether this value is `other` or comes before it.
    pub fn le(&self, other: &Self) -> (b: bool)
        ensures
            b == self.precedes(*other),
    {
        match (self, other) {
            (ChronoValue::NaiveDate(a), ChronoValue::NaiveDate(b)) => a.le(b),
            (ChronoValue::NaiveTime(a), ChronoValue::NaiveTime(b)) => a.le(b),
            (ChronoValue::NaiveDateTime(a), ChronoValue::NaiveDateTime(b)) => a.le(b),
            (ChronoValue::DateTime(a), ChronoValue::DateTime(b)) => a.le(b),
            (ChronoValue::NaiveDate(_), _) => true,
            (ChronoValue::NaiveTime(_), ChronoValue::NaiveDate(_)) => false,
            (ChronoValue::NaiveTime(_), _) => true,
            (ChronoValue::NaiveDateTime(_), ChronoValue::DateTime(_)) => true,
            (ChronoValue::NaiveDateTime(_), _) => false,
            (ChronoValue::DateTime(_), _) => false,
        }
    }

    /// The nanoseconds from `self` to `other`, for two values of one
    /// granularity. Between dates it is the whole days; a `DateTime` counts as
    /// a moment. A leap second counts as a second of its own only where one
    /// of the two values lies in it.
    pub open spec fn distance_to(self, other: Self) -> int {
        match (self, other) {
            (ChronoValue::NaiveDate(a), ChronoValue::NaiveDate(b)) => (b.days() - a.days())
                * 86_400_000_000_000,
            (ChronoValue::NaiveTime(a), ChronoValue::NaiveTime(b)) => time_distance(
                b.secs(),
                b.frac(),
                a.secs(),
                a.frac(),
            ),
            (ChronoValue::NaiveDateTime(a), ChronoValue::NaiveDateTime(b)) => civil_distance(b, a),
            (ChronoValue::DateTime(a), ChronoValue::DateTime(b)) => civil_distance(
                b.utc(),
                a.utc(),
            ),
            _ => 0,
        }
    }

    /// The span from this value to `other`, which is negative where `other`
    /// comes first. There is none between values of different granularities.
    pub fn delta_to(&self, other: &Self) -> (delta: Option<TimeSpan>)
        ensures
            delta is Some <==> self.spec_type() == other.spec_type(),
            delta matches Some(span) ==> span.nanos() == self.distance_to(*other),
    {
        match (self, other) {
            (ChronoValue::NaiveDate(left), ChronoValue::NaiveDate(right)) => Some(
                right.since(left),
            ),
            (ChronoValue::NaiveTime(left), ChronoValue::NaiveTime(right)) => Some(
                right.since(left),
            ),
            (ChronoValue::NaiveDateTime(left), ChronoValue::NaiveDateTime(right)) => Some(
                right.since(left),
            ),
            (ChronoValue::DateTime(left), ChronoValue::DateTime(right)) => Some(right.since(left)),
            _ => None,
        }
    }

    /// The view of this value moved by `span` nanoseconds, if the date is still
    /// a date. A date moves by the whole days of the span, rounded towards
    /// zero; a time of day wraps round at midnight; a date with a time moves
    /// its time of day and then its date by the days that were passed.
    pub open spec fn moved_by(self, span: int) -> Option<ChronoView> {
        match self {
            ChronoValue::NaiveDate(date) => {
                let days = date.days() + whole_days(span);
                if is_date(days) {
                    Some(ChronoView::NaiveDate { days })
                } else {
                    None
                }
            },
            ChronoValue::NaiveTime(time) => {
                let sum = time_sum(time.secs(), time.frac(), span);
                Some(ChronoView::NaiveTime { secs: sum.0, frac: sum.1 })
            },
            ChronoValue::NaiveDateTime(at) => {
                let sum = time_sum(at.time.secs(), at.time.frac(), span);
                let days = at.date.days() + whole_days(sum.2 * 1_000_000_000);
                if is_date(days) {
                    Some(ChronoView::NaiveDateTime { days, secs: sum.0, frac: sum.1 })
                } else {
                    None
                }
            },
            ChronoValue::DateTime(at) => {
                let sum = time_sum(at.utc().time.secs(), at.utc().time.frac(), span);
                let days = at.utc().date.days() + whole_days(sum.2 * 1_000_000_000);
                if is_date(days) {
                    Some(
                        ChronoView::DateTime {
                            days,
                            secs: sum.0,
                            frac: sum.1,
                            offset: at.offset(),
                        },
                    )
                } else {
                    None
                }
            },
        }
    }

    /// This value moved by `span`, in its own granularity; there is none where
    /// the date would leave the range of dates.
    pub fn plus(&self, span: &TimeSpan) -> (moved: Option<Self>)
        ensures
            match moved {
                Some(value) => self.moved_by(span.nanos()) == Some(value@),
                None => self.moved_by(span.nanos()) is None,
            },
    {
        match self {
            ChronoValue::NaiveDate(date) => match date.plus(span) {
                Some(moved) => Some(ChronoValue::NaiveDate(moved)),
                None => None,
            },
            ChronoValue::NaiveTime(time) => Some(ChronoValue::NaiveTime(time.plus(span).0)),
            ChronoValue::NaiveDateTime(at) => match at.plus(span) {
                Some(moved) => Some(ChronoValue::NaiveDateTime(moved)),
                None => None,
            },
            ChronoValue::DateTime(at) => match at.plus(span) {
                Some(moved) => Some(ChronoValue::DateTime(moved)),
                None => None,
            },
        }
    }

    /// The date and time of the call, in UTC. Which moment it is depends on the
    /// clock; whichever it is, it can be held in every granularity.
    pub fn now() -> (now: ZonedDateTime)
        ensures
            now.offset() == 0,
            ChronoValue::DateTime(now).valid(),
            forall|type_: ChronoValueType| #[trigger] Self::has_default(now, type_),
    {
        let (days, secs, frac) = utc_now();
        let date = CalendarDate::from_epoch_days(days).unwrap();
        let time = ClockTime::from_parts(secs, frac).unwrap();
        ZonedDateTime::from_utc(CivilDateTime { date, time }, 0).unwrap()
    }

    /// Midnight of 1 January 1970, in UTC.
    pub fn origin() -> (origin: ZonedDateTime)
        ensures
            ChronoValue::DateTime(origin)@ == (ChronoView::DateTime {
                days: 0,
                secs: 0,
                frac: 0,
                offset: 0,
            }),
    {
        let date = CalendarDate::from_epoch_days(0).unwrap();
        let time = ClockTime::midnight();
        ZonedDateTime::from_utc(CivilDateTime { date, time }, 0).unwrap()
    }

    /// Whether `default` can be held in the granularity `type_`: what is
    /// taken of the local date and time of day must be something that can be
    /// held. A date needs the local date alone.
    pub open spec fn has_default(default: ZonedDateTime, type_: ChronoValueType) -> bool {
        match type_ {
            ChronoValueType::DateTime => true,
            ChronoValueType::NaiveDateTime => default.has_local(),
            ChronoValueType::NaiveTime => default.has_local_time(),
            ChronoValueType::NaiveDate => default.has_local_date(),
        }
    }

    /// The view of `default` in the granularity `type_`: the value itself, or
    /// its local date and time, or a part of that.
    pub open spec fn default_view(default: ZonedDateTime, type_: ChronoValueType) -> ChronoView {
        match type_ {
            ChronoValueType::DateTime => ChronoValue::DateTime(default)@,
            ChronoValueType::NaiveDateTime => ChronoView::NaiveDateTime {
                days: default.local_days(),
                secs: default.local_secs(),
                frac: default.utc().time.frac(),
            },
            ChronoValueType::NaiveTime => ChronoView::NaiveTime {
                secs: default.local_secs(),
                frac: default.utc().time.frac(),
            },
            ChronoValueType::NaiveDate => ChronoView::NaiveDate { days: default.local_days() },
        }
    }

    /// `default` in the granularity `type_`, if it can be held in it.
    pub fn checked_default_of(default: ZonedDateTime, type_: ChronoValueType) -> (value: Option<
        Self,
    >)
        ensures
            value is Some <==> Self::has_default(default, type_),
            value matches Some(v) ==> v@ == Self::default_view(default, type_) && v.spec_type()
                == type_,
    {
        match type_ {
            ChronoValueType::DateTime => Some(ChronoValue::DateTime(default)),
            ChronoValueType::NaiveDateTime => match default.local() {
                Some(local) => Some(ChronoValue::NaiveDateTime(local)),
                None => None,
            },
            ChronoValueType::NaiveTime => match default.local_time() {
                Some(time) => Some(ChronoValue::NaiveTime(time)),
                None => None,
            },
            ChronoValueType::NaiveDate => match default.local_date() {
                Some(date) => Some(ChronoValue::NaiveDate(date)),
                None => None,
            },
        }
    }

    /// `default` in the granularity `type_`.
    pub fn default_of(default: ZonedDateTime, type_: ChronoValueType) -> (value: Self)
        requires
            Self::has_default(default, type_),
        ensures
            value@ == Self::default_view(default, type_),
            value.spec_type() == type_,
    {
        Self::checked_default_of(default, type_).unwrap()
    }
}

/// The text that a value with the view `value` has under `pattern`, if the
/// pattern can write it.
pub open spec fn formatted(value: ChronoView, pattern: Seq<char>) -> Option<Seq<char>> {
    match value {
        ChronoView::NaiveDate { days } => date_text(days, pattern),
        ChronoView::NaiveTime { secs, frac } => time_text(secs, frac, pattern),
        ChronoView::NaiveDateTime { days, secs, frac } => civil_text(days, secs, frac, pattern),
        ChronoView::DateTime { days, secs, frac, offset } => zoned_text(
            days,
            secs,
            frac,
            offset,
            pattern,
        ),
    }
}

/// The date that `content` is under `pattern`, if it is one.
pub open spec fn read_date(content: Seq<char>, pattern: Seq<char>) -> Option<ChronoView> {
    match parsed_date(content, pattern) {
        Some(days) => if is_date(days) {
            Some(ChronoView::NaiveDate { days })
        } else {
            None
        },
        None => None,
    }
}

/// The time of day that `content` is under `pattern`, if it is one.
pub open spec fn read_time(content: Seq<char>, pattern: Seq<char>) -> Option<ChronoView> {
    match parsed_time(content, pattern) {
        Some((secs, frac)) => if is_time(secs, frac) {
            Some(ChronoView::NaiveTime { secs, frac })
        } else {
            None
        },
        None => None,
    }
}

/// The date with a time of day that `content` is under `pattern`: its date
/// together with its time of day, if it is both.
pub open spec fn read_civil(content: Seq<char>, pattern: Seq<char>) -> Option<ChronoView> {
    match (read_date(content, pattern), read_time(content, pattern)) {
        (Some(ChronoView::NaiveDate { days }), Some(ChronoView::NaiveTime { secs, frac })) => Some(
            ChronoView::NaiveDateTime { days, secs, frac },
        ),
        _ => None,
    }
}

/// The date with a time of day at an offset that `content` is under `pattern`,
/// if it is one that can be held.
pub open spec fn read_zoned(content: Seq<char>, pattern: Seq<char>) -> Option<ChronoView> {
    match parsed_zoned(content, pattern) {
        Some((days, secs, frac, offset)) => {
            let at = ChronoView::DateTime { days, secs, frac, offset };
            if at.valid() {
                Some(at)
            } else {
                None
            }
        },
        None => None,
    }
}

/// The value that `content` is under `pattern`. With a hint it is the value of
/// that granularity. Without one the granularities are tried in this order,
/// and the first that gives a value wins: a date with a time at an offset; a
/// date, with its time of day if there is one; a time of day.
pub open spec fn read(pattern: Seq<char>, hint: Option<ChronoValueType>, content: Seq<char>) -> Option<
    ChronoView,
> {
    match hint {
        Some(ChronoValueType::DateTime) => read_zoned(content, pattern),
        Some(ChronoValueType::NaiveDateTime) => read_civil(content, pattern),
        Some(ChronoValueType::NaiveDate) => read_date(content, pattern),
        Some(ChronoValueType::NaiveTime) => read_time(content, pattern),
        None => if read_zoned(content, pattern) is Some {
            read_zoned(content, pattern)
        } else if read_date(content, pattern) is Some {
            if read_time(content, pattern) is Some {
                read_civil(content, pattern)
            } else {
                read_date(content, pattern)
            }
        } else {
            read_time(content, pattern)
        },
    }
}

/// Reads and writes date and time values under a pattern, with the granularity
/// to read if one is given.
#[derive(Debug)]
pub struct ChronoValueFormatter<'a>(pub &'a str, pub Option<ChronoValueType>);

impl<'a> ChronoValueFormatter<'a> {
    /// The formatter for the pattern `src` that reads values of the
    /// granularity `hint`, or of any if there is no hint.
    pub fn new_with(src: &'a str, hint: Option<ChronoValueType>) -> (formatter: Self)
        ensures
            formatter.0@ == src@,
            formatter.1 == hint,
    {
        Self(src, hint)
    }

    /// The formatter for the pattern `src` that reads values of any
    /// granularity.
    pub fn new(src: &'a str) -> (formatter: Self)
        ensures
            formatter.0@ == src@,
            formatter.1 is None,
    {
        Self::new_with(src, None)
    }

    /// Reads a date from `content`.
    fn parse_date(&self, content: &str) -> (date: Option<CalendarDate>)
        ensures
            match date {
                Some(d) => read_date(content@, self.0@) == Some(ChronoValue::NaiveDate(d)@),
                None => read_date(content@, self.0@) is None,
            },
    {
        match parse_date(content, self.0) {
            Ok(days) => CalendarDate::from_epoch_days(days),
            Err(_) => None,
        }
    }

    /// Reads a time of day from `content`.
    fn parse_time(&self, content: &str) -> (time: Option<ClockTime>)
        ensures
            match time {
                Some(t) => read_time(content@, self.0@) == Some(ChronoValue::NaiveTime(t)@),
                None => read_time(content@, self.0@) is None,
            },
    {
        match parse_time(content, self.0) {
            Ok((secs, frac)) => ClockTime::from_parts(secs, frac),
            Err(_) => None,
        }
    }

    /// Reads a date with a time of day at an offset from `content`.
    fn parse_zoned(&self, content: &str) -> (at: Option<ZonedDateTime>)
        ensures
            match at {
                Some(z) => read_zoned(content@, self.0@) == Some(ChronoValue::DateTime(z)@),
                None => read_zoned(content@, self.0@) is None,
            },
    {
        match parse_zoned(content, self.0) {
            Ok((days, secs, frac, offset)) => {
                match (CalendarDate::from_epoch_days(days), ClockTime::from_parts(secs, frac)) {
                    (Some(date), Some(time)) => ZonedDateTime::from_utc(
                        CivilDateTime { date, time },
                        offset,
                    ),
                    _ => None,
                }
            },
            Err(_) => None,
        }
    }

    /// Reads a value from `content` under the pattern: of the granularity of
    /// the hint, or else of the first granularity that the pattern and the text
    /// give, in the order that `read` states.
    pub fn parse(&self, content: &str) -> (value: Result<ChronoValue, ChronoError>)
        ensures
            match value {
                Ok(v) => read(self.0@, self.1, content@) == Some(v@),
                Err(e) => read(self.0@, self.1, content@) is None && e@
                    == (ChronoFault::Unparseable { content: content@, pattern: self.0@ }),
            },
    {
        let found = match self.1 {
            Some(ChronoValueType::DateTime) => match self.parse_zoned(content) {
                Some(at) => Some(ChronoValue::DateTime(at)),
                None => None,
            },
            Some(ChronoValueType::NaiveDateTime) => match (
                self.parse_date(content),
                self.parse_time(content),
            ) {
                (Some(date), Some(time)) => Some(
                    ChronoValue::NaiveDateTime(CivilDateTime { date, time }),
                ),
                _ => None,
            },
            Some(ChronoValueType::NaiveDate) => match self.parse_date(content) {
                Some(date) => Some(ChronoValue::NaiveDate(date)),
                None => None,
            },
            Some(ChronoValueType::NaiveTime) => match self.parse_time(content) {
                Some(time) => Some(ChronoValue::NaiveTime(time)),
                None => None,
            },
            None => match self.parse_zoned(content) {
                Some(at) => Some(ChronoValue::DateTime(at)),
                None => match self.parse_date(content) {
                    Some(date) => match self.parse_time(content) {
                        Some(time) => Some(
                            ChronoValue::NaiveDateTime(CivilDateTime { date, time }),
                        ),
                        None => Some(ChronoValue::NaiveDate(date)),
                    },
                    None => match self.parse_time(content) {
                        Some(time) => Some(ChronoValue::NaiveTime(time)),
                        None => None,
                    },
                },
            },
        };
        match found {
            Some(value) => Ok(value),
            None => Err(
                ChronoError::Unparseable { content: content.to_owned(), pattern: self.0.to_owned() },
            ),
        }
    }

    /// Writes `c` under the pattern.
    pub fn format(&self, c: &ChronoValue) -> (text: Result<String, ChronoError>)
        ensures
            match text {
                Ok(written) => formatted(c@, self.0@) == Some(written@),
                Err(e) => formatted(c@, self.0@) is None && e@
                    == (ChronoFault::Unformattable { value: c@, pattern: self.0@ }),
            },
    {
        let written = match c {
            ChronoValue::DateTime(at) => {
                let utc = at.naive_utc();
                format_zoned(
                    utc.date.epoch_days(),
                    utc.time.seconds_from_midnight(),
                    utc.time.nanosecond(),
                    at.local_minus_utc(),
                    self.0,
                )
            },
            ChronoValue::NaiveDateTime(at) => format_civil(
                at.date.epoch_days(),
                at.time.seconds_from_midnight(),
                at.time.nanosecond(),
                self.0,
            ),
            ChronoValue::NaiveTime(time) => format_time(
                time.seconds_from_midnight(),
                time.nanosecond(),
                self.0,
            ),
            ChronoValue::NaiveDate(date) => format_date(date.epoch_days(), self.0),
        };
        match written {
            Some(written) => Ok(written),
            None => Err(ChronoError::Unformattable { value: *c, pattern: self.0.to_owned() }),
        }
    }

    /// What [`Self::parse_or_default_of`] gives, as a view.
    pub open spec fn read_or_default(
        pattern: Seq<char>,
        hint_of_pattern: Option<ChronoValueType>,
        opt: Option<String>,
        def: ZonedDateTime,
        hint: ChronoValueType,
    ) -> Result<ChronoView, ChronoFault> {
        match opt {
            Some(inner) => match read(pattern, hint_of_pattern, inner@) {
                Some(view) => Ok(view),
                None => Err(ChronoFault::Unparseable { content: inner@, pattern }),
            },
            None => if !ChronoValue::has_default(def, hint) {
                Err(ChronoFault::NoDefault { moment: ChronoValue::DateTime(def)@, type_: hint })
            } else {
                let default = ChronoValue::default_view(def, hint);
                match formatted(default, pattern) {
                    None => Err(ChronoFault::Unformattable { value: default, pattern }),
                    Some(written) => match read(pattern, None, written) {
                        Some(view) => Ok(view),
                        None => Err(ChronoFault::Unparseable { content: written, pattern }),
                    },
                }
            },
        }
    }

    /// The value that `opt` is under the pattern, or, where there is no text,
    /// `def` in the granularity `hint`, as it reads back after it was written
    /// under the pattern.
    pub fn parse_or_default_of(
        &self,
        opt: Option<String>,
        def: ZonedDateTime,
        hint: ChronoValueType,
    ) -> (value: Result<ChronoValue, ChronoError>)
        ensures
            match value {
                Ok(v) => Self::read_or_default(self.0@, self.1, opt, def, hint) == Ok::<
                    ChronoView,
                    ChronoFault,
                >(v@),
                Err(e) => Self::read_or_default(self.0@, self.1, opt, def, hint) == Err::<
                    ChronoView,
                    ChronoFault,
                >(e@),
            },
    {
        match opt {
            Some(inner) => self.parse(inner.as_str()),
            None => match ChronoValue::checked_default_of(def, hint) {
                None => Err(ChronoError::NoDefault { moment: def, type_: hint }),
                Some(default) => {
                    let fmt = ChronoValueFormatter::new_with(self.0, None);
                    match fmt.format(&default) {
                        Err(e) => Err(e),
                        Ok(written) => fmt.parse(written.as_str()),
                    }
                },
            },
        }
    }
}

/// A date or time value together with the pattern that it was sampled
/// against, under which it can be written: the text of the value is always
/// the one that this pattern gives.
#[derive(Debug, PartialEq, Eq, Hash)]
pub struct ChronoValueAndFormat {
    value: ChronoValue,
    format: String,
}

impl ChronoValueAndFormat {
    /// The value.
    pub closed spec fn spec_value(self) -> ChronoValue {
        self.value
    }

    /// The pattern.
    pub closed spec fn spec_format(self) -> Seq<char> {
        self.format@
    }

    /// The pattern can write the value.
    #[verifier::type_invariant]
    pub closed spec fn writable(self) -> bool {
        formatted(self.value@, self.format@) is Some
    }

    /// The pair of `value` and `format`, if the pattern can write the value.
    pub fn new(value: ChronoValue, format: String) -> (pair: Option<Self>)
        ensures
            pair is Some <==> formatted(value@, format@) is Some,
            pair matches Some(p) ==> p.spec_value() == value && p.spec_format() == format@,
    {
        let written = ChronoValueFormatter::new(format.as_str()).format(&value);
        match written {
            Ok(_) => Some(ChronoValueAndFormat { value, format }),
            Err(_) => None,
        }
    }

    /// The value.
    pub fn value(&self) -> (value: ChronoValue)
        ensures
            value == self.spec_value(),
    {
        self.value
    }

    /// The pattern.
    pub fn format(&self) -> (format: &str)
        ensures
            format@ == self.spec_format(),
    {
        self.format.as_str()
    }

    /// The text of the value under its pattern.
    pub fn format_to_string(&self) -> (text: String)
        ensures
            formatted(self.spec_value()@, self.spec_format()) == Some(text@),
    {
        proof {
            use_type_invariant(self);
        }
        match ChronoValueFormatter::new(self.format.as_str()).format(&self.value) {
            Ok(text) => text,
            Err(_) => {
                proof {
                    assert(false);
                }
                String::new()
            },
        }
    }
}

impl Clone for ChronoValueAndFormat {
    fn clone(&self) -> (copy: Self)
        ensures
            copy.spec_value() == self.spec_value(),
            copy.spec_format() == self.spec_format(),
    {
        proof {
            use_type_invariant(self);
        }
        ChronoValueAndFormat { value: self.value, format: self.format.clone() }
    }
}

} // verus!
