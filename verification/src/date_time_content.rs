//! The schema of a date and time node: a pattern, a granularity and the two
//! ends of a range, and how it compiles into the node.

use crate::calendar::ZonedDateTime;
use crate::chrono_value::{
    formatted, read, ChronoError, ChronoFault, ChronoValue, ChronoValueFormatter, ChronoValueType,
    ChronoView,
};
use crate::date_time_node::RandomDateTime;
use vstd::prelude::*;

verus! {

/// The schema of a date and time node: values of the granularity `type_`
/// between `begin` and `end`, both included, written under the pattern
/// `format`. An end that is absent stands for the time of compilation.
#[derive(Debug, Clone, PartialEq)]
pub struct DateTimeContent {
    pub format: String,
    pub type_: ChronoValueType,
    pub begin: Option<ChronoValue>,
    pub end: Option<ChronoValue>,
}

/// The schema of a date and time node as it is written down: the ends of the
/// range are texts under the pattern, and the granularity may be left out.
#[derive(Debug, Clone, PartialEq)]
pub struct DateTimeContentText {
    pub format: String,
    pub type_: Option<ChronoValueType>,
    pub begin: Option<String>,
    pub end: Option<String>,
}

/// The view of a value that may be absent.
pub open spec fn view_of(value: Option<ChronoValue>) -> Option<ChronoView> {
    match value {
        Some(value) => Some(value@),
        None => None,
    }
}

/// The view of the end `bound` of a range: the value that is given, or else
/// `now` in the granularity `type_`, if it can be held in it.
pub open spec fn resolved(
    bound: Option<ChronoValue>,
    now: ZonedDateTime,
    type_: ChronoValueType,
) -> Option<ChronoView> {
    match bound {
        Some(value) => Some(value@),
        None => if ChronoValue::has_default(now, type_) {
            Some(ChronoValue::default_view(now, type_))
        } else {
            None
        },
    }
}

/// Why a range from `begin` to `end` cannot be compiled, if it cannot: an end
/// that is absent because the time of compilation `now` cannot be held in the
/// granularity `type_`, ends of different granularities, or a `begin` that
/// comes after `end`, by their order or by the span between them.
pub open spec fn refusal(
    begin: Option<ChronoValue>,
    end: Option<ChronoValue>,
    now: ZonedDateTime,
    type_: ChronoValueType,
) -> Option<ChronoFault> {
    match (begin, end) {
        (Some(begin), Some(end)) => if begin.spec_type() != end.spec_type() {
            Some(ChronoFault::TypeMismatch { begin: begin@, end: end@ })
        } else if !begin.precedes(end) || begin.distance_to(end) < 0 {
            Some(ChronoFault::BeginAfterEnd { begin: begin@, end: end@ })
        } else {
            None
        },
        _ => Some(ChronoFault::NoDefault { moment: ChronoValue::DateTime(now)@, type_ }),
    }
}

impl DateTimeContent {
    /// Whether `node` is what the schema compiles into at the time `now`: the
    /// error that `refusal` states for the two ends, or else the node that
    /// samples between them and writes under the pattern.
    pub open spec fn compiles_into(
        self,
        now: ZonedDateTime,
        node: Result<RandomDateTime, ChronoError>,
    ) -> bool {
        exists|begin: Option<ChronoValue>, end: Option<ChronoValue>|
            {
                &&& #[trigger] Self::ends(self, now, begin, end)
                &&& match refusal(begin, end, now, self.type_) {
                    Some(error) => node matches Err(e) && e@ == error,
                    None => {
                        &&& node matches Ok(compiled)
                        &&& compiled.sampler().low() == begin->Some_0
                        &&& compiled.sampler().span() == (begin->Some_0).distance_to(end->Some_0)
                        &&& compiled.held() is None
                        &&& compiled.pattern() == self.format@
                    },
                }
            }
    }

    /// Whether `begin` and `end` are the two ends of the range at the time
    /// `now`: each is the value with the view that `resolved` states, if there
    /// is one.
    pub open spec fn ends(
        self,
        now: ZonedDateTime,
        begin: Option<ChronoValue>,
        end: Option<ChronoValue>,
    ) -> bool {
        &&& view_of(begin) == resolved(self.begin, now, self.type_)
        &&& view_of(end) == resolved(self.end, now, self.type_)
    }

    /// The end `bound` of the range at the time `now`.
    fn resolve(&self, bound: Option<ChronoValue>, now: ZonedDateTime) -> (value: Option<
        ChronoValue,
    >)
        ensures
            view_of(value) == resolved(bound, now, self.type_),
    {
        match bound {
            Some(value) => Some(value),
            None => ChronoValue::checked_default_of(now, self.type_),
        }
    }

    /// Compiles the schema into its node, with `now` for an end that is
    /// absent. The ends are checked here, once and for all samples: it is
    /// an error if they are of different granularities or if `begin` comes
    /// after `end`.
    pub fn compile_at(&self, now: ZonedDateTime) -> (node: Result<RandomDateTime, ChronoError>)
        ensures
            self.compiles_into(now, node),
    {
        let begin = self.resolve(self.begin, now);
        let end = self.resolve(self.end, now);
        let node = match (begin, end) {
            (Some(first), Some(last)) => {
                if first.type_() != last.type_() {
                    Err(ChronoError::TypeMismatch { begin: first, end: last })
                } else if !first.le(&last) {
                    Err(ChronoError::BeginAfterEnd { begin: first, end: last })
                } else if first.delta_to(&last).unwrap().is_negative() {
                    Err(ChronoError::BeginAfterEnd { begin: first, end: last })
                } else {
                    Ok(RandomDateTime::new(first..last, self.format.as_str()))
                }
            },
            _ => Err(ChronoError::NoDefault { moment: now, type_: self.type_ }),
        };
        assert(Self::ends(*self, now, begin, end));
        node
    }

    /// Compiles the schema into its node, with the time of the call for an
    /// end that is absent: the time is taken once, so that all the samples of
    /// the node share it.
    pub fn compile(&self) -> (node: Result<RandomDateTime, ChronoError>)
        ensures
            exists|now: ZonedDateTime|
                {
                    &&& now.offset() == 0
                    &&& ChronoValue::has_default(now, self.type_)
                    &&& #[trigger] self.compiles_into(now, node)
                },
            self.begin is None && self.end is None ==> node is Ok,
    {
        let now = ChronoValue::now();
        let node = self.compile_at(now);
        proof {
            assert(ChronoValue::has_default(now, self.type_));
            if self.begin is None && self.end is None {
                lemma_schema_without_ends_compiles(*self, now, node);
            }
        }
        node
    }
}

/// A schema without ends compiles.
///
/// Take a schema with neither end given, and a time of compilation that can be
/// held in the granularity of the schema. Then both ends are that time, and
/// what the schema compiles into is a node.
pub proof fn lemma_schema_without_ends_compiles(
    content: DateTimeContent,
    now: ZonedDateTime,
    node: Result<RandomDateTime, ChronoError>,
)
    requires
        content.begin is None,
        content.end is None,
        ChronoValue::has_default(now, content.type_),
        content.compiles_into(now, node),
    ensures
        node is Ok,
{
    let (b, e) = choose|b: Option<ChronoValue>, e: Option<ChronoValue>|
        {
            &&& #[trigger] DateTimeContent::ends(content, now, b, e)
            &&& match refusal(b, e, now, content.type_) {
                Some(error) => node matches Err(err) && err@ == error,
                None => {
                    &&& node matches Ok(compiled)
                    &&& compiled.sampler().low() == b->Some_0
                    &&& compiled.sampler().span() == (b->Some_0).distance_to(e->Some_0)
                    &&& compiled.held() is None
                    &&& compiled.pattern() == content.format@
                },
            }
        };
    (b->Some_0).lemma_view_is_injective(e->Some_0);
}

/// A range whose first value comes after its last never compiles.
///
/// Whatever the granularities of the two ends and whatever the time of
/// compilation: if both ends can be held and the first comes after the last,
/// what the schema compiles into is an error.
pub proof fn lemma_begin_after_end_never_compiles(
    content: DateTimeContent,
    now: ZonedDateTime,
    begin: ChronoValue,
    end: ChronoValue,
    node: Result<RandomDateTime, ChronoError>,
)
    requires
        content.ends(now, Some(begin), Some(end)),
        !begin.precedes(end),
        content.compiles_into(now, node),
    ensures
        node is Err,
{
    let (b, e) = choose|b: Option<ChronoValue>, e: Option<ChronoValue>|
        {
            &&& #[trigger] DateTimeContent::ends(content, now, b, e)
            &&& match refusal(b, e, now, content.type_) {
                Some(error) => node matches Err(err) && err@ == error,
                None => {
                    &&& node matches Ok(compiled)
                    &&& compiled.sampler().low() == b->Some_0
                    &&& compiled.sampler().span() == (b->Some_0).distance_to(e->Some_0)
                    &&& compiled.held() is None
                    &&& compiled.pattern() == content.format@
                },
            }
        };
    begin.lemma_view_is_injective(b->Some_0);
    end.lemma_view_is_injective(e->Some_0);
}

/// The view of a text that may be absent.
pub open spec fn text_of(text: Option<String>) -> Option<Seq<char>> {
    match text {
        Some(text) => Some(text@),
        None => None,
    }
}

/// The end of a range that is written as `text`: none where there is no text,
/// the value that the text is under the pattern, or the error that it is none.
pub open spec fn read_bound(
    pattern: Seq<char>,
    hint: Option<ChronoValueType>,
    text: Option<Seq<char>>,
) -> Result<Option<ChronoView>, ChronoFault> {
    match text {
        None => Ok(None),
        Some(content) => match read(pattern, hint, content) {
            Some(value) => Ok(Some(value)),
            None => Err(ChronoFault::Unparseable { content, pattern }),
        },
    }
}

/// The text of the end `value` of a range: none where there is no value, the
/// text of the value under the pattern, or the error that it has none.
pub open spec fn written_bound(pattern: Seq<char>, value: Option<ChronoView>) -> Result<
    Option<Seq<char>>,
    ChronoFault,
> {
    match value {
        None => Ok(None),
        Some(view) => match formatted(view, pattern) {
            Some(text) => Ok(Some(text)),
            None => Err(ChronoFault::Unformattable { value: view, pattern }),
        },
    }
}

impl DateTimeContentText {
    /// The granularity of the schema: the one that is written, or else a date
    /// with a time at an offset.
    pub open spec fn granularity(self) -> ChronoValueType {
        match self.type_ {
            Some(type_) => type_,
            None => ChronoValueType::DateTime,
        }
    }

    /// The granularity and the two ends that the written schema stands for.
    /// Both ends are read under the pattern, as values of the granularity that
    /// is written if one is. It is an error if an end is no value, or if
    /// the two ends share a granularity that is not the one of the schema.
    pub open spec fn interpreted(self) -> Result<
        (ChronoValueType, Option<ChronoView>, Option<ChronoView>),
        ChronoFault,
    > {
        match read_bound(self.format@, self.type_, text_of(self.begin)) {
            Err(e) => Err(e),
            Ok(begin) => match read_bound(self.format@, self.type_, text_of(self.end)) {
                Err(e) => Err(e),
                Ok(end) => if begin is Some && end is Some && (begin->Some_0).kind() == (
                end->Some_0).kind() && (begin->Some_0).kind() != self.granularity() {
                    Err(ChronoFault::TypeMismatch { begin: begin->Some_0, end: end->Some_0 })
                } else {
                    Ok((self.granularity(), begin, end))
                },
            },
        }
    }

    /// Reads the written schema: see [`Self::interpreted`].
    pub fn into_datetime_content(self) -> (content: Result<DateTimeContent, ChronoError>)
        ensures
            match content {
                Ok(c) => {
                    &&& c.format@ == self.format@
                    &&& self.interpreted() == Ok::<
                        (ChronoValueType, Option<ChronoView>, Option<ChronoView>),
                        ChronoFault,
                    >((c.type_, view_of(c.begin), view_of(c.end)))
                },
                Err(e) => self.interpreted() == Err::<
                    (ChronoValueType, Option<ChronoView>, Option<ChronoView>),
                    ChronoFault,
                >(e@),
            },
    {
        let fmt = ChronoValueFormatter::new_with(self.format.as_str(), self.type_);
        let type_ = match self.type_ {
            Some(type_) => type_,
            None => ChronoValueType::default(),
        };
        let begin = match &self.begin {
            None => None,
            Some(text) => match fmt.parse(text.as_str()) {
                Ok(value) => Some(value),
                Err(e) => {
                    return Err(e);
                },
            },
        };
        let end = match &self.end {
            None => None,
            Some(text) => match fmt.parse(text.as_str()) {
                Ok(value) => Some(value),
                Err(e) => {
                    return Err(e);
                },
            },
        };
        let common_variant = match (&begin, &end) {
            (Some(first), Some(last)) => first.common_variant(last),
            _ => None,
        };
        match (common_variant, &begin, &end) {
            (Some(variant), Some(first), Some(last)) => {
                if variant != type_ {
                    return Err(ChronoError::TypeMismatch { begin: *first, end: *last });
                }
            },
            _ => {},
        }
        Ok(DateTimeContent { format: self.format, type_, begin, end })
    }

    /// Writes the schema down: the granularity as it is, and each end that is
    /// there as its text under the pattern. It is an error if the pattern
    /// cannot write an end.
    pub fn from_datetime_content(c: &DateTimeContent) -> (text: Result<Self, ChronoError>)
        ensures
            match text {
                Ok(t) => {
                    &&& t.format@ == c.format@
                    &&& t.type_ == Some(c.type_)
                    &&& written_bound(c.format@, view_of(c.begin)) == Ok::<
                        Option<Seq<char>>,
                        ChronoFault,
                    >(text_of(t.begin))
                    &&& written_bound(c.format@, view_of(c.end)) == Ok::<
                        Option<Seq<char>>,
                        ChronoFault,
                    >(text_of(t.end))
                },
                Err(e) => if written_bound(c.format@, view_of(c.begin)) is Err {
                    written_bound(c.format@, view_of(c.begin)) == Err::<
                        Option<Seq<char>>,
                        ChronoFault,
                    >(e@)
                } else {
                    written_bound(c.format@, view_of(c.end)) == Err::<
                        Option<Seq<char>>,
                        ChronoFault,
                    >(e@)
                },
            },
    {
        let fmt = ChronoValueFormatter::new_with(c.format.as_str(), None);
        let begin = match &c.begin {
            None => None,
            Some(value) => match fmt.format(value) {
                Ok(text) => Some(text),
                Err(e) => {
                    return Err(e);
                },
            },
        };
        let end = match &c.end {
            None => None,
            Some(value) => match fmt.format(value) {
                Ok(text) => Some(text),
                Err(e) => {
                    return Err(e);
                },
            },
        };
        Ok(DateTimeContentText { format: c.format.clone(), type_: Some(c.type_), begin, end })
    }
}

} // verus!
