//! The node that samples a date or time value from a range and emits it as
//! text.

use crate::calendar::{time_sum, TimeSpan};
use crate::chrono_bridge::{counted_from, is_time, time_distance, whole_days, whole_secs};
use crate::chrono_value::{
    formatted, ChronoError, ChronoFault, ChronoValue, ChronoValueAndFormat, ChronoValueFormatter,
    ChronoView,
};
use crate::generator::{chain, drives, Finite, Generator, GeneratorState};
use crate::random::draw_span;
use core::ops::Range;
use vstd::prelude::*;

verus! {

/// The uniform distribution over the values from a first value to a last one,
/// both included: a span is drawn uniformly between none and the span from the
/// first to the last, and the first value is moved by it.
pub struct UniformChronoValue {
    low: ChronoValue,
    span: TimeSpan,
}

impl UniformChronoValue {
    /// The first value of the range.
    pub closed spec fn low(self) -> ChronoValue {
        self.low
    }

    /// The nanoseconds of the longest span that is drawn.
    pub closed spec fn span(self) -> int {
        self.span.nanos()
    }

    /// The longest span goes forward in time.
    #[verifier::type_invariant]
    pub closed spec fn valid(self) -> bool {
        0 <= self.span.nanos()
    }

    /// Whether there is a range from `low` to `high`: the two are of one
    /// granularity, `low` does not come after `high`, and the span from `low`
    /// to `high` does not go back in time.
    pub open spec fn is_range(low: ChronoValue, high: ChronoValue) -> bool {
        &&& low.spec_type() == high.spec_type()
        &&& low.precedes(high)
        &&& 0 <= low.distance_to(high)
    }

    /// The distribution over the values from `low` to `high`, without `high`
    /// itself: the longest span that is drawn is a nanosecond short of the
    /// span from `low` to `high`.
    pub fn new(low: ChronoValue, high: ChronoValue) -> (uniform: Self)
        requires
            Self::is_range(low, high),
            0 < low.distance_to(high),
        ensures
            uniform.low() == low,
            uniform.span() == low.distance_to(high) - 1,
    {
        let delta = low.delta_to(&high).unwrap();
        let span = TimeSpan::from_nanos(delta.as_nanos() - 1).unwrap();
        UniformChronoValue { low, span }
    }

    /// The distribution over the values from `low` to `high`, both included.
    pub fn new_inclusive(low: ChronoValue, high: ChronoValue) -> (uniform: Self)
        requires
            Self::is_range(low, high),
        ensures
            uniform.low() == low,
            uniform.span() == low.distance_to(high),
    {
        let span = low.delta_to(&high).unwrap();
        UniformChronoValue { low, span }
    }

    /// What the value at the span `offset` from the first value is: the first
    /// value moved by the span, or the error that the date left the range of
    /// dates.
    pub open spec fn at(low: ChronoValue, offset: int) -> Result<ChronoView, ChronoFault> {
        match low.moved_by(offset) {
            Some(view) => Ok(view),
            None => Err(ChronoFault::OutOfRange { value: low@, span: offset }),
        }
    }

    /// The value at the span `offset` from the first value of the range.
    pub fn value_at(&self, offset: &TimeSpan) -> (value: Result<ChronoValue, ChronoError>)
        ensures
            match value {
                Ok(v) => Self::at(self.low(), offset.nanos()) == Ok::<ChronoView, ChronoFault>(v@),
                Err(e) => Self::at(self.low(), offset.nanos()) == Err::<ChronoView, ChronoFault>(
                    e@,
                ),
            },
    {
        match self.low.plus(offset) {
            Some(value) => Ok(value),
            None => Err(ChronoError::OutOfRange { value: self.low, span: *offset }),
        }
    }

    /// Whether `value` is what a sample may be: the value at some span between
    /// none and the longest span.
    pub open spec fn samples(self, value: Result<ChronoValue, ChronoError>) -> bool {
        exists|offset: int|
            {
                &&& 0 <= offset <= self.span()
                &&& match value {
                    Ok(v) => #[trigger] Self::at(self.low(), offset) == Ok::<
                        ChronoView,
                        ChronoFault,
                    >(v@),
                    Err(e) => #[trigger] Self::at(self.low(), offset) == Err::<
                        ChronoView,
                        ChronoFault,
                    >(e@),
                }
            }
    }

    /// Draws a span and hands back the value at that span from the first
    /// value of the range.
    pub fn sample(&self, rng: &mut rand::rngs::StdRng) -> (value: Result<ChronoValue, ChronoError>)
        ensures
            self.samples(value),
    {
        proof {
            use_type_invariant(self);
            use_type_invariant(&self.span);
            self.span.lemma_valid();
        }
        let (max_secs, max_nanos) = self.span.split();
        let (secs, nanos) = draw_span(rng, max_secs as u64, max_nanos);
        let offset = TimeSpan::from_nanos((secs as i128) * 1_000_000_000 + (nanos as i128)).unwrap();
        let value = self.value_at(&offset);
        assert(0 <= offset.nanos() <= self.span());
        value
    }
}

/// Where a span is counted from somewhere, the parts of the moved time of day
/// are in their ranges and add up to the nanoseconds since midnight of that
/// place and the span.
proof fn lemma_time_sum_adds_up(secs: int, frac: int, span: int)
    requires
        is_time(secs, frac),
        counted_from(secs, frac, span) is Some,
    ensures
        ({
            let sum = time_sum(secs, frac, span);
            let from = counted_from(secs, frac, span)->Some_0;
            &&& 0 <= sum.0 < 86_400
            &&& 0 <= sum.1 < 1_000_000_000
            &&& sum.2 == 86_400 * (sum.2 / 86_400)
            &&& whole_days(sum.2 * 1_000_000_000) == sum.2 / 86_400
            &&& (sum.2 + sum.0) * 1_000_000_000 + sum.1 == from.0 * 1_000_000_000 + from.1 + span
        }),
{
    let from = counted_from(secs, frac, span)->Some_0;
    let total = from.0 * 1_000_000_000 + from.1 + span;
    let all_secs = total / 1_000_000_000;
    let days = all_secs / 86_400;
    vstd::arithmetic::div_mod::lemma_fundamental_div_mod(total, 1_000_000_000);
    vstd::arithmetic::div_mod::lemma_fundamental_div_mod(all_secs, 86_400);
    let passed = all_secs - all_secs % 86_400;
    assert(passed == 86_400 * days);
    vstd::arithmetic::div_mod::lemma_div_multiples_vanish(days, 86_400);
    assert(passed / 86_400 == days);
    let nanos = passed * 1_000_000_000;
    assert(nanos == 86_400_000_000_000 * days);
    if nanos >= 0 {
        vstd::arithmetic::div_mod::lemma_div_multiples_vanish(days, 86_400_000_000_000);
    } else {
        assert(-nanos == 86_400_000_000_000 * (-days));
        vstd::arithmetic::div_mod::lemma_div_multiples_vanish(-days, 86_400_000_000_000);
    }
}

/// A span of no time leaves every valid value where it is.
pub proof fn lemma_no_span_moves_nothing(value: ChronoValue)
    requires
        value.valid(),
    ensures
        value.moved_by(0) == Some(value@),
{
    value.lemma_view_is_valid();
    match value@ {
        ChronoView::NaiveDate { days } => {},
        ChronoView::NaiveTime { secs, frac } => {
            if frac < 1_000_000_000 {
                lemma_time_sum_adds_up(secs, frac, 0);
            }
        },
        ChronoView::NaiveDateTime { days, secs, frac } => {
            if frac < 1_000_000_000 {
                lemma_time_sum_adds_up(secs, frac, 0);
            }
        },
        ChronoView::DateTime { days, secs, frac, offset } => {
            if frac < 1_000_000_000 {
                lemma_time_sum_adds_up(secs, frac, 0);
            }
        },
    }
}

/// Whether the span from the value with the view `low` to the one with the
/// view `high` leads past `high` when it is added to `low`: `high` lies in a
/// leap second, and `low` lies in an earlier second of its day, or in the same
/// second before the leap second begins. The span then counts the leap second,
/// which the sum does not. The one range of times of day that is not overrun
/// so is the one from midnight to the leap second at the end of the day: there
/// the sum wraps round to midnight, which is in the range.
pub open spec fn overruns(low: ChronoView, high: ChronoView) -> bool {
    &&& high.in_leap_second()
    &&& low.second() < high.second() || (low.second() == high.second() && !low.in_leap_second())
    &&& !(low == (ChronoView::NaiveTime { secs: 0, frac: 0 }) && high is NaiveTime && high.second()
        == 86_399)
}

/// The date and time at a span within a range lies in the range, day by day
/// and second by second.
proof fn lemma_moved_time_lies_within_range(
    low_days: int,
    low_secs: int,
    low_frac: int,
    high_days: int,
    high_secs: int,
    high_frac: int,
    offset: int,
)
    requires
        is_time(low_secs, low_frac),
        is_time(high_secs, high_frac),
        low_days < high_days || (low_days == high_days && (low_secs < high_secs || (low_secs
            == high_secs && low_frac <= high_frac))),
        !(high_frac >= 1_000_000_000 && (low_secs < high_secs || (low_secs == high_secs && low_frac
            < 1_000_000_000))),
        0 <= offset <= (high_days - low_days) * 86_400_000_000_000 + time_distance(
            high_secs,
            high_frac,
            low_secs,
            low_frac,
        ),
    ensures
        ({
            let sum = time_sum(low_secs, low_frac, offset);
            let days = low_days + whole_days(sum.2 * 1_000_000_000);
            &&& is_time(sum.0, sum.1)
            &&& low_days < days || (low_days == days && (low_secs < sum.0 || (low_secs == sum.0
                && low_frac <= sum.1)))
            &&& days < high_days || (days == high_days && (sum.0 < high_secs || (sum.0
                == high_secs && sum.1 <= high_frac)))
        }),
{
    let whole = whole_secs(offset);
    vstd::arithmetic::div_mod::lemma_fundamental_div_mod(offset, 1_000_000_000);
    assert(0 <= whole) by {
        vstd::arithmetic::div_mod::lemma_div_pos_is_pos(offset, 1_000_000_000);
    }
    if counted_from(low_secs, low_frac, offset) is Some {
        lemma_time_sum_adds_up(low_secs, low_frac, offset);
    }
}

/// The value at a span within a range lies in the range.
///
/// Take two valid values `low` and `high` of one granularity, `low` not after
/// `high`, such that the span from `low` to `high` does not lead past `high`.
/// Then the value at any span between none and the span from `low` to `high`
/// exists, is valid, is not before `low` and is not after `high`.
pub proof fn lemma_value_at_span_lies_within_range(low: ChronoValue, high: ChronoValue, offset: int)
    requires
        low.valid(),
        high.valid(),
        low.spec_type() == high.spec_type(),
        low.precedes(high),
        !overruns(low@, high@),
        0 <= offset <= low.distance_to(high),
    ensures
        low.moved_by(offset) matches Some(value) && low@.precedes(value) && value.precedes(high@)
            && value.valid(),
{
    low.lemma_view_is_valid();
    high.lemma_view_is_valid();
    match (low@, high@) {
        (ChronoView::NaiveDate { days: a }, ChronoView::NaiveDate { days: b }) => {
            assert(offset / 86_400_000_000_000 <= b - a) by {
                vstd::arithmetic::div_mod::lemma_div_is_ordered(
                    offset,
                    (b - a) * 86_400_000_000_000,
                    86_400_000_000_000,
                );
                vstd::arithmetic::div_mod::lemma_div_multiples_vanish(b - a, 86_400_000_000_000);
            }
            assert(0 <= offset / 86_400_000_000_000) by {
                vstd::arithmetic::div_mod::lemma_div_pos_is_pos(offset, 86_400_000_000_000);
            }
        },
        (
            ChronoView::NaiveTime { secs: a, frac: x },
            ChronoView::NaiveTime { secs: b, frac: y },
        ) => {
            if a == 0 && x == 0 && b == 86_399 && y >= 1_000_000_000 {
                lemma_time_sum_adds_up(a, x, offset);
            } else {
                lemma_moved_time_lies_within_range(0, a, x, 0, b, y, offset);
            }
        },
        (
            ChronoView::NaiveDateTime { days: d, secs: a, frac: x },
            ChronoView::NaiveDateTime { days: e, secs: b, frac: y },
        ) => {
            lemma_moved_time_lies_within_range(d, a, x, e, b, y, offset);
        },
        (
            ChronoView::DateTime { days: d, secs: a, frac: x, offset: _ },
            ChronoView::DateTime { days: e, secs: b, frac: y, offset: _ },
        ) => {
            lemma_moved_time_lies_within_range(d, a, x, e, b, y, offset);
        },
        _ => {},
    }
}

/// Whether the span from the value with the view `low` to the one with the
/// view `high` leads to `high` when it is added to `low`. Into a leap second
/// it does so only from within that leap second. To a value outside a leap
/// second it does so from every value outside a leap second, and from one in a
/// leap second where `high` lies in a later second of its day, so that the
/// span counts the leap second as the sum leaves it.
pub open spec fn leads_to(low: ChronoView, high: ChronoView) -> bool {
    if high.in_leap_second() {
        low.in_leap_second() && low.day() == high.day() && low.second() == high.second()
    } else {
        !low.in_leap_second() || low.second() < high.second()
    }
}

/// The date and time at the span to a later one is that later one, day by day
/// and second by second.
proof fn lemma_moved_time_reaches(
    low_days: int,
    low_secs: int,
    low_frac: int,
    high_days: int,
    high_secs: int,
    high_frac: int,
)
    requires
        is_time(low_secs, low_frac),
        is_time(high_secs, high_frac),
        low_days < high_days || (low_days == high_days && (low_secs < high_secs || (low_secs
            == high_secs && low_frac <= high_frac))),
        if high_frac >= 1_000_000_000 {
            low_frac >= 1_000_000_000 && low_days == high_days && low_secs == high_secs
        } else {
            low_frac < 1_000_000_000 || low_secs < high_secs
        },
    ensures
        ({
            let span = (high_days - low_days) * 86_400_000_000_000 + time_distance(
                high_secs,
                high_frac,
                low_secs,
                low_frac,
            );
            let sum = time_sum(low_secs, low_frac, span);
            &&& sum.0 == high_secs
            &&& sum.1 == high_frac
            &&& low_days + whole_days(sum.2 * 1_000_000_000) == high_days
        }),
{
    let span = (high_days - low_days) * 86_400_000_000_000 + time_distance(
        high_secs,
        high_frac,
        low_secs,
        low_frac,
    );
    vstd::arithmetic::div_mod::lemma_fundamental_div_mod(span, 1_000_000_000);
    if span >= 0 {
        vstd::arithmetic::div_mod::lemma_div_pos_is_pos(span, 1_000_000_000);
    }
    if high_frac < 1_000_000_000 {
        assert(span >= 0);
        if low_frac >= 1_000_000_000 {
            assert(span + low_frac >= 2_000_000_000);
            if span >= 1_000_000_000 {
                vstd::arithmetic::div_mod::lemma_div_is_ordered(
                    1_000_000_000,
                    span,
                    1_000_000_000,
                );
            }
        }
        assert(counted_from(low_secs, low_frac, span) is Some);
        lemma_time_sum_adds_up(low_secs, low_frac, span);
        let sum = time_sum(low_secs, low_frac, span);
        let passed = sum.2 / 86_400;
        let total = (high_days - low_days) * 86_400 + high_secs;
        assert((passed * 86_400 + sum.0) * 1_000_000_000 + sum.1 == total * 1_000_000_000
            + high_frac);
        vstd::arithmetic::div_mod::lemma_fundamental_div_mod_converse(
            total * 1_000_000_000 + high_frac,
            1_000_000_000,
            total,
            high_frac,
        );
        vstd::arithmetic::div_mod::lemma_fundamental_div_mod_converse(
            total * 1_000_000_000 + high_frac,
            1_000_000_000,
            passed * 86_400 + sum.0,
            sum.1,
        );
        vstd::arithmetic::div_mod::lemma_fundamental_div_mod_converse(
            total,
            86_400,
            high_days - low_days,
            high_secs,
        );
        vstd::arithmetic::div_mod::lemma_fundamental_div_mod_converse(
            total,
            86_400,
            passed,
            sum.0,
        );
    }
}

/// Adding the span from a value to a later one gives the later one.
///
/// Take two valid values `low` and `high` of one granularity, `low` not after
/// `high`, such that the span from `low` to `high` leads to `high`. Then `low`
/// moved by that span is `high`; of two values at an offset it is the moment
/// of `high`, at the offset of `low`.
pub proof fn lemma_span_leads_to_later_value(low: ChronoValue, high: ChronoValue)
    requires
        low.valid(),
        high.valid(),
        low.spec_type() == high.spec_type(),
        low.precedes(high),
        leads_to(low@, high@),
    ensures
        low.moved_by(low.distance_to(high)) == Some(high@.at_offset_of(low@)),
{
    low.lemma_view_is_valid();
    high.lemma_view_is_valid();
    match (low@, high@) {
        (ChronoView::NaiveDate { days: a }, ChronoView::NaiveDate { days: b }) => {
            vstd::arithmetic::div_mod::lemma_div_multiples_vanish(b - a, 86_400_000_000_000);
        },
        (
            ChronoView::NaiveTime { secs: a, frac: x },
            ChronoView::NaiveTime { secs: b, frac: y },
        ) => {
            lemma_moved_time_reaches(0, a, x, 0, b, y);
        },
        (
            ChronoView::NaiveDateTime { days: d, secs: a, frac: x },
            ChronoView::NaiveDateTime { days: e, secs: b, frac: y },
        ) => {
            lemma_moved_time_reaches(d, a, x, e, b, y);
        },
        (
            ChronoView::DateTime { days: d, secs: a, frac: x, offset: _ },
            ChronoView::DateTime { days: e, secs: b, frac: y, offset: _ },
        ) => {
            lemma_moved_time_reaches(d, a, x, e, b, y);
        },
        _ => {},
    }
}

/// Every sample of a distribution lies between the two ends of its range.
///
/// Take the distribution over the values from `low` to `high`, two valid values
/// of one granularity, `low` not after `high`, such that the span from `low` to
/// `high` does not lead past `high`. Then whatever is sampled is a value, it is
/// not before `low` and it is not after `high`.
pub proof fn lemma_samples_lie_within_range(
    uniform: UniformChronoValue,
    low: ChronoValue,
    high: ChronoValue,
    sampled: Result<ChronoValue, ChronoError>,
)
    requires
        low.valid(),
        high.valid(),
        UniformChronoValue::is_range(low, high),
        !overruns(low@, high@),
        uniform.low() == low,
        uniform.span() == low.distance_to(high),
        uniform.samples(sampled),
    ensures
        sampled matches Ok(value) && low.precedes(value) && value.precedes(high) && value@.valid(),
{
    let offset = choose|offset: int|
        {
            &&& 0 <= offset <= uniform.span()
            &&& match sampled {
                Ok(v) => #[trigger] UniformChronoValue::at(uniform.low(), offset) == Ok::<
                    ChronoView,
                    ChronoFault,
                >(v@),
                Err(e) => #[trigger] UniformChronoValue::at(uniform.low(), offset) == Err::<
                    ChronoView,
                    ChronoFault,
                >(e@),
            }
        };
    lemma_value_at_span_lies_within_range(low, high, offset);
}

/// Every sample of the distribution over a single value is that value.
///
/// Take the distribution over the values from a valid value `only` to itself.
/// Then whatever is sampled is `only`.
pub proof fn lemma_single_value_is_sampled(
    uniform: UniformChronoValue,
    only: ChronoValue,
    sampled: Result<ChronoValue, ChronoError>,
)
    requires
        only.valid(),
        uniform.low() == only,
        uniform.span() == only.distance_to(only),
        uniform.samples(sampled),
    ensures
        sampled == Ok::<ChronoValue, ChronoError>(only),
{
    lemma_no_span_moves_nothing(only);
    let value = sampled->Ok_0;
    value.lemma_view_is_injective(only);
}

/// Generates date or time values from a range, each written under a pattern.
///
/// A drive samples one value, emits its text under the pattern as the one
/// fragment, and completes with the value paired with the pattern. Where the
/// value cannot be had or the pattern cannot write it, the drive completes at
/// once with the error.
pub struct RandomDateTime {
    sampler: UniformChronoValue,
    held: Option<ChronoValue>,
    format: String,
}

impl RandomDateTime {
    /// The distribution that the node samples from.
    pub closed spec fn sampler(self) -> UniformChronoValue {
        self.sampler
    }

    /// The value that was emitted and is still to be handed out, if any.
    pub closed spec fn held(self) -> Option<ChronoValue> {
        self.held
    }

    /// The pattern under which the values are written.
    pub closed spec fn pattern(self) -> Seq<char> {
        self.format@
    }

    /// The value that was emitted is one that the pattern can write.
    #[verifier::type_invariant]
    pub closed spec fn valid(self) -> bool {
        self.held matches Some(value) ==> formatted(value@, self.format@) is Some
    }

    /// The node that samples the values from `range.start` to `range.end`, both
    /// included, and writes them under `format`.
    pub fn new(range: Range<ChronoValue>, format: &str) -> (node: Self)
        requires
            UniformChronoValue::is_range(range.start, range.end),
        ensures
            node.sampler().low() == range.start,
            node.sampler().span() == range.start.distance_to(range.end),
            node.held() is None,
            node.pattern() == format@,
    {
        RandomDateTime {
            sampler: UniformChronoValue::new_inclusive(range.start, range.end),
            held: None,
            format: format.to_owned(),
        }
    }

    /// What the first resumption of a drive makes of the sample `sampled`: the
    /// text of the value as a fragment, with the value held back; or the
    /// error of the sample; or the error that the pattern cannot write the
    /// value.
    pub open spec fn emits(
        pattern: Seq<char>,
        sampled: Result<ChronoValue, ChronoError>,
        held: Option<ChronoValue>,
        out: GeneratorState<String, Result<ChronoValueAndFormat, ChronoError>>,
    ) -> bool {
        match sampled {
            Err(e) => {
                &&& held is None
                &&& out matches GeneratorState::Complete(Err(error))
                &&& error@ == e@
            },
            Ok(value) => match formatted(value@, pattern) {
                None => {
                    &&& held is None
                    &&& out matches GeneratorState::Complete(Err(error))
                    &&& error@ == (ChronoFault::Unformattable { value: value@, pattern })
                },
                Some(text) => {
                    &&& held == Some(value)
                    &&& out matches GeneratorState::Yielded(written)
                    &&& written@ == text
                },
            },
        }
    }
}

impl Generator for RandomDateTime {
    type Yield = String;

    type Return = Result<ChronoValueAndFormat, ChronoError>;

    open spec fn inv(&self) -> bool {
        true
    }

    open spec fn resumes(
        &self,
        after: &Self,
        out: GeneratorState<Self::Yield, Self::Return>,
    ) -> bool {
        &&& after.sampler() == self.sampler()
        &&& after.pattern() == self.pattern()
        &&& match self.held() {
            Some(value) => {
                &&& after.held() is None
                &&& out matches GeneratorState::Complete(Ok(pair))
                &&& pair.spec_value() == value
                &&& pair.spec_format() == self.pattern()
            },
            None => exists|sampled: Result<ChronoValue, ChronoError>|
                {
                    &&& #[trigger] self.sampler().samples(sampled)
                    &&& Self::emits(self.pattern(), sampled, after.held(), out)
                },
        }
    }

    proof fn lemma_resumption_keeps_inv(
        &self,
        after: &Self,
        out: GeneratorState<Self::Yield, Self::Return>,
    ) {
    }

    fn next(&mut self, rng: &mut rand::rngs::StdRng) -> (out: GeneratorState<
        Self::Yield,
        Self::Return,
    >) {
        proof {
            use_type_invariant(&*self);
        }
        let held = self.held;
        match held {
            Some(value) => {
                self.held = None;
                let pair = ChronoValueAndFormat::new(value, self.format.clone()).unwrap();
                GeneratorState::Complete(Ok(pair))
            },
            None => {
                let sampled = self.sampler.sample(rng);
                let ghost seen = sampled;
                let out = match sampled {
                    Err(e) => GeneratorState::Complete(Err(e)),
                    Ok(value) => match ChronoValueFormatter::new(self.format.as_str()).format(
                        &value,
                    ) {
                        Ok(written) => {
                            self.held = Some(value);
                            GeneratorState::Yielded(written)
                        },
                        Err(e) => GeneratorState::Complete(Err(e)),
                    },
                };
                assert(Self::emits(self.pattern(), seen, self.held(), out));
                out
            },
        }
    }
}

impl Finite for RandomDateTime {
    open spec fn limit() -> nat {
        1
    }

    open spec fn pending(&self) -> nat {
        if self.held() is None {
            1
        } else {
            0
        }
    }

    proof fn lemma_pending_within_limit(&self) {
    }

    proof fn lemma_fragment_uses_pending(&self, after: &Self, fragment: Self::Yield) {
    }
}

/// What a drive that emitted `fragments` and completed with `ret` made of the
/// sample `sampled`, under the pattern `pattern`: an error of the sample, or
/// the error that the pattern cannot write the value, without a fragment; or
/// else the text of the value as the one fragment and then the value with the
/// pattern.
pub open spec fn delivers(
    pattern: Seq<char>,
    sampled: Result<ChronoValue, ChronoError>,
    fragments: Seq<String>,
    ret: Result<ChronoValueAndFormat, ChronoError>,
) -> bool {
    match sampled {
        Err(e) => fragments.len() == 0 && (ret matches Err(error) && error@ == e@),
        Ok(value) => match formatted(value@, pattern) {
            None => fragments.len() == 0 && (ret matches Err(error) && error@
                == (ChronoFault::Unformattable { value: value@, pattern })),
            Some(text) => {
                &&& fragments.len() == 1
                &&& fragments[0]@ == text
                &&& ret matches Ok(pair)
                &&& pair.spec_value() == value
                &&& pair.spec_format() == pattern
            },
        },
    }
}

/// A drive of the node is one sample, written once.
///
/// Take a node between drives, and a drive of it that emits `fragments` and
/// completes with `ret`. Then one value was sampled from the range of the
/// node, and the drive delivered it as `delivers` says: where it could be had
/// and written, its text is the one fragment and `ret` holds the value with
/// the pattern of the node.
pub proof fn lemma_drive_is_one_sample(
    start: RandomDateTime,
    fragments: Seq<String>,
    ret: Result<ChronoValueAndFormat, ChronoError>,
    end: RandomDateTime,
)
    requires
        start.held() is None,
        drives(start, fragments, ret, end),
    ensures
        end.held() is None,
        end.sampler() == start.sampler(),
        end.pattern() == start.pattern(),
        exists|sampled: Result<ChronoValue, ChronoError>|
            {
                &&& #[trigger] start.sampler().samples(sampled)
                &&& delivers(start.pattern(), sampled, fragments, ret)
            },
{
    let states = choose|states: Seq<RandomDateTime>|
        {
            &&& #[trigger] chain(states, fragments)
            &&& states[0] == start
            &&& states.last().resumes(&end, GeneratorState::Complete(ret))
        };
    if fragments.len() == 0 {
        let sampled = choose|sampled: Result<ChronoValue, ChronoError>|
            {
                &&& #[trigger] start.sampler().samples(sampled)
                &&& RandomDateTime::emits(
                    start.pattern(),
                    sampled,
                    end.held(),
                    GeneratorState::Complete(ret),
                )
            };
        assert(delivers(start.pattern(), sampled, fragments, ret));
    } else {
        let first = GeneratorState::<String, Result<ChronoValueAndFormat, ChronoError>>::Yielded(
            fragments[0],
        );
        assert(states[0].resumes(&states[1], first));
        let sampled = choose|sampled: Result<ChronoValue, ChronoError>|
            {
                &&& #[trigger] start.sampler().samples(sampled)
                &&& RandomDateTime::emits(start.pattern(), sampled, states[1].held(), first)
            };
        if fragments.len() >= 2 {
            assert(states[1].resumes(
                &states[2],
                GeneratorState::<String, Result<ChronoValueAndFormat, ChronoError>>::Yielded(
                    fragments[1],
                ),
            ));
        }
        assert(states.last() == states[1]);
        assert(delivers(start.pattern(), sampled, fragments, ret));
    }
}

/// Whether the pattern can write every value from `low` to `high`.
pub open spec fn writes_range(pattern: Seq<char>, low: ChronoValue, high: ChronoValue) -> bool {
    forall|value: ChronoValue|
        value@.valid() && low.precedes(value) && value.precedes(high) ==> #[trigger] formatted(
            value@,
            pattern,
        ) is Some
}

/// A drive of the node gives a value of its range, and the text of that value.
///
/// Take the node over the values from `low` to `high`, two valid values of one
/// granularity, `low` not after `high`, such that the span from `low` to `high`
/// does not lead past `high`. Take a drive of it, from between drives, that
/// emits `fragments` and completes with `ret`. If the pattern of the node can
/// write every value of the range, the drive emits exactly one fragment and
/// completes with a success; the value of the success is not before `low` and
/// not after `high`, its pattern is that of the node, and the fragment is the
/// text of the value under that pattern.
pub proof fn lemma_drive_gives_value_of_range(
    start: RandomDateTime,
    low: ChronoValue,
    high: ChronoValue,
    fragments: Seq<String>,
    ret: Result<ChronoValueAndFormat, ChronoError>,
    end: RandomDateTime,
)
    requires
        low.valid(),
        high.valid(),
        UniformChronoValue::is_range(low, high),
        !overruns(low@, high@),
        start.sampler().low() == low,
        start.sampler().span() == low.distance_to(high),
        start.held() is None,
        drives(start, fragments, ret, end),
    ensures
        writes_range(start.pattern(), low, high) ==> {
            &&& fragments.len() == 1
            &&& ret matches Ok(pair)
            &&& low.precedes(pair.spec_value())
            &&& pair.spec_value().precedes(high)
            &&& pair.spec_format() == start.pattern()
            &&& formatted(pair.spec_value()@, pair.spec_format()) == Some(fragments[0]@)
        },
{
    lemma_drive_is_one_sample(start, fragments, ret, end);
    let sampled = choose|sampled: Result<ChronoValue, ChronoError>|
        {
            &&& #[trigger] start.sampler().samples(sampled)
            &&& delivers(start.pattern(), sampled, fragments, ret)
        };
    lemma_samples_lie_within_range(start.sampler(), low, high, sampled);
    if writes_range(start.pattern(), low, high) {
        let value = sampled->Ok_0;
        assert(formatted(value@, start.pattern()) is Some);
    }
}

/// The date and time node of a record: a [`RandomDateTime`] as it stands in
/// the tree of nodes.
pub struct DateTimeNode(pub RandomDateTime);

impl From<RandomDateTime> for DateTimeNode {
    fn from(value: RandomDateTime) -> (node: Self) {
        DateTimeNode(value)
    }
}

impl vstd::std_specs::convert::FromSpecImpl<RandomDateTime> for DateTimeNode {
    open spec fn obeys_from_spec() -> bool {
        true
    }

    open spec fn from_spec(value: RandomDateTime) -> Self {
        DateTimeNode(value)
    }
}

impl Generator for DateTimeNode {
    type Yield = String;

    type Return = Result<ChronoValueAndFormat, ChronoError>;

    open spec fn inv(&self) -> bool {
        self.0.inv()
    }

    open spec fn resumes(
        &self,
        after: &Self,
        out: GeneratorState<Self::Yield, Self::Return>,
    ) -> bool {
        self.0.resumes(&after.0, out)
    }

    proof fn lemma_resumption_keeps_inv(
        &self,
        after: &Self,
        out: GeneratorState<Self::Yield, Self::Return>,
    ) {
        self.0.lemma_resumption_keeps_inv(&after.0, out);
    }

    fn next(&mut self, rng: &mut rand::rngs::StdRng) -> (out: GeneratorState<
        Self::Yield,
        Self::Return,
    >) {
        self.0.next(rng)
    }
}

impl Finite for DateTimeNode {
    open spec fn limit() -> nat {
        RandomDateTime::limit()
    }

    open spec fn pending(&self) -> nat {
        self.0.pending()
    }

    proof fn lemma_pending_within_limit(&self) {
        self.0.lemma_pending_within_limit();
    }

    proof fn lemma_fragment_uses_pending(&self, after: &Self, fragment: Self::Yield) {
        if self.resumes(after, GeneratorState::Yielded(fragment)) {
            self.0.lemma_fragment_uses_pending(&after.0, fragment);
        }
    }
}

} // verus!
