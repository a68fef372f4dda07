//! The node that repeats an element: a length is generated first, and then
//! the element is driven that many times.

use crate::chrono_value::{formatted, ChronoError, ChronoValue, ChronoValueAndFormat};
use crate::date_time_node::{
    lemma_samples_lie_within_range, overruns, writes_range, DateTimeNode, RandomDateTime,
    UniformChronoValue,
};
use crate::generator::{chain, drives, Finite, Generator, GeneratorState};
use crate::try_generator::GeneratorResult;
use vstd::prelude::*;

verus! {

/// Whether one resumption may lead from `before` to `after` by completing with
/// the success `value`.
pub open spec fn completes_with<G>(
    before: G,
    after: G,
    value: <G::Return as GeneratorResult>::Ok,
) -> bool where G: Generator, G::Return: GeneratorResult {
    exists|ret: G::Return|
        {
            &&& #[trigger] before.resumes(&after, GeneratorState::Complete(ret))
            &&& ret.result() == Ok::<
                <G::Return as GeneratorResult>::Ok,
                <G::Return as GeneratorResult>::Err,
            >(value)
        }
}

/// Whether each state of `states` leads to the next by a resumption that
/// completes with the success of the same place in `values`: every one of
/// these drives ends at once, without a fragment.
pub open spec fn completes_each<G>(
    states: Seq<G>,
    values: Seq<<G::Return as GeneratorResult>::Ok>,
) -> bool where G: Generator, G::Return: GeneratorResult {
    &&& states.len() == values.len() + 1
    &&& forall|i: int|
        0 <= i < values.len() ==> completes_with(#[trigger] states[i], states[i + 1], values[i])
}

/// Every state of a run of completions that starts fit to be resumed is fit to
/// be resumed.
pub proof fn lemma_completions_keep_inv<G>(
    states: Seq<G>,
    values: Seq<<G::Return as GeneratorResult>::Ok>,
    i: int,
) where G: Generator, G::Return: GeneratorResult
    requires
        completes_each(states, values),
        states[0].inv(),
        0 <= i < states.len(),
    ensures
        states[i].inv(),
    decreases i,
{
    if i > 0 {
        lemma_completions_keep_inv(states, values, i - 1);
        assert(completes_with(states[i - 1], states[i], values[i - 1]));
        let ret = choose|ret: G::Return| #[trigger]
            states[i - 1].resumes(&states[i], GeneratorState::Complete(ret));
        states[i - 1].lemma_resumption_keeps_inv(&states[i], GeneratorState::Complete(ret));
    }
}

/// An element that is driven a fixed number of times.
///
/// The fragments of the repetitions are emitted in their order, and the
/// successes are collected, in their order, into the final payload. The first
/// repetition that fails ends the drive with its failure, and no repetition
/// is driven after it.
pub struct RandomArray<G> where G: Generator, G::Return: GeneratorResult {
    pub content: G,
    pub remaining: u64,
    pub values: Vec<<G::Return as GeneratorResult>::Ok>,
}

impl<G> RandomArray<G> where G: Generator, G::Return: GeneratorResult {
    /// The repetition of `content`, `len` times over.
    pub fn with_length(len: u64, content: G) -> (array: Self)
        ensures
            array.content == content,
            array.remaining == len,
            array.values@.len() == 0,
    {
        RandomArray { content, remaining: len, values: Vec::new() }
    }

    /// Starts a drive of `len` repetitions over.
    pub fn restart(&mut self, len: u64)
        ensures
            final(self).content == old(self).content,
            final(self).remaining == len,
            final(self).values@.len() == 0,
    {
        self.remaining = len;
        self.values = Vec::new();
    }

    /// How a resumption ends after the repetitions that completed in it at
    /// once: `element` is the element after them, `values` the successes
    /// that are collected by then, `left` the repetitions that are left.
    pub open spec fn ends(
        element: G,
        values: Seq<<G::Return as GeneratorResult>::Ok>,
        left: int,
        after: &Self,
        out: GeneratorState<
            G::Yield,
            Result<Vec<<G::Return as GeneratorResult>::Ok>, <G::Return as GeneratorResult>::Err>,
        >,
    ) -> bool {
        if left == 0 {
            &&& out matches GeneratorState::Complete(Ok(collected))
            &&& collected@ == values
            &&& after.content == element
            &&& after.remaining == 0
            &&& after.values@.len() == 0
        } else {
            exists|inner_out: GeneratorState<G::Yield, G::Return>|
                {
                    &&& #[trigger] element.resumes(&after.content, inner_out)
                    &&& match inner_out {
                        GeneratorState::Yielded(y) => {
                            &&& out == GeneratorState::<
                                G::Yield,
                                Result<
                                    Vec<<G::Return as GeneratorResult>::Ok>,
                                    <G::Return as GeneratorResult>::Err,
                                >,
                            >::Yielded(y)
                            &&& after.remaining == left
                            &&& after.values@ == values
                        },
                        GeneratorState::Complete(ret) => {
                            &&& ret.result() matches Err(e)
                            &&& out == GeneratorState::<
                                G::Yield,
                                Result<
                                    Vec<<G::Return as GeneratorResult>::Ok>,
                                    <G::Return as GeneratorResult>::Err,
                                >,
                            >::Complete(Err(e))
                            &&& after.remaining == 0
                            &&& after.values@.len() == 0
                        },
                    }
                }
        }
    }
}

impl<G> Generator for RandomArray<G> where G: Generator, G::Return: GeneratorResult {
    type Yield = G::Yield;

    type Return = Result<
        Vec<<G::Return as GeneratorResult>::Ok>,
        <G::Return as GeneratorResult>::Err,
    >;

    open spec fn inv(&self) -> bool {
        self.content.inv()
    }

    open spec fn resumes(
        &self,
        after: &Self,
        out: GeneratorState<Self::Yield, Self::Return>,
    ) -> bool {
        exists|states: Seq<G>, values: Seq<<G::Return as GeneratorResult>::Ok>|
            {
                &&& #[trigger] completes_each(states, values)
                &&& states[0] == self.content
                &&& values.len() <= self.remaining
                &&& Self::ends(
                    states.last(),
                    self.values@ + values,
                    self.remaining - values.len(),
                    after,
                    out,
                )
            }
    }

    proof fn lemma_resumption_keeps_inv(
        &self,
        after: &Self,
        out: GeneratorState<Self::Yield, Self::Return>,
    ) {
        let (states, values) = choose|
            states: Seq<G>,
            values: Seq<<G::Return as GeneratorResult>::Ok>,
        |
            {
                &&& #[trigger] completes_each(states, values)
                &&& states[0] == self.content
                &&& values.len() <= self.remaining
                &&& Self::ends(
                    states.last(),
                    self.values@ + values,
                    self.remaining - values.len(),
                    after,
                    out,
                )
            };
        lemma_completions_keep_inv(states, values, states.len() - 1);
        if self.remaining - values.len() != 0 {
            let inner_out = choose|inner_out: GeneratorState<G::Yield, G::Return>| #[trigger]
                states.last().resumes(&after.content, inner_out);
            states.last().lemma_resumption_keeps_inv(&after.content, inner_out);
        }
    }

    fn next(&mut self, rng: &mut rand::rngs::StdRng) -> (out: GeneratorState<
        Self::Yield,
        Self::Return,
    >) {
        let ghost mut states: Seq<G> = seq![self.content];
        let ghost mut values: Seq<<G::Return as GeneratorResult>::Ok> = Seq::empty();
        while self.remaining > 0
            invariant
                self.content.inv(),
                completes_each(states, values),
                states[0] == old(self).content,
                states.last() == self.content,
                self.values@ == old(self).values@ + values,
                self.remaining + values.len() == old(self).remaining,
            decreases self.remaining,
        {
            let ghost before = self.content;
            let inner_out = self.content.next(rng);
            let ghost seen = inner_out;
            match inner_out {
                GeneratorState::Yielded(y) => {
                    let out = GeneratorState::Yielded(y);
                    assert(before.resumes(&self.content, seen));
                    assert(Self::ends(
                        before,
                        old(self).values@ + values,
                        old(self).remaining - values.len(),
                        &*self,
                        out,
                    ));
                    return out;
                },
                GeneratorState::Complete(ret) => match ret.into_result() {
                    Err(e) => {
                        self.remaining = 0;
                        self.values = Vec::new();
                        let out = GeneratorState::Complete(Err(e));
                        assert(before.resumes(&self.content, seen));
                        assert(Self::ends(
                            before,
                            old(self).values@ + values,
                            old(self).remaining - values.len(),
                            &*self,
                            out,
                        ));
                        return out;
                    },
                    Ok(value) => {
                        proof {
                            assert(before.resumes(&self.content, seen));
                            assert(completes_with(before, self.content, value));
                            states = states.push(self.content);
                            values = values.push(value);
                        }
                        self.values.push(value);
                        self.remaining = self.remaining - 1;
                    },
                },
            }
        }
        let mut collected = Vec::new();
        core::mem::swap(&mut collected, &mut self.values);
        let out = GeneratorState::Complete(Ok(collected));
        assert(Self::ends(
            states.last(),
            old(self).values@ + values,
            old(self).remaining - values.len(),
            &*self,
            out,
        ));
        out
    }
}

/// The array node of a record: a length is generated first, and then the
/// element is repeated that many times.
///
/// The fragments of the length generator come first, then those of the
/// repetitions. A failure of the length generator ends the drive before any
/// repetition; a length of zero completes at once with no value.
pub struct ArrayNode<L, G> where G: Generator, G::Return: GeneratorResult {
    pub len: L,
    pub array: RandomArray<G>,
    pub repeating: bool,
}

impl<L, G> ArrayNode<L, G> where
    L: Generator<Yield = G::Yield>,
    L::Return: GeneratorResult<Ok = u64, Err = <G::Return as GeneratorResult>::Err>,
    G: Generator,
    G::Return: GeneratorResult,
 {
    /// The node that generates a length with `len` and repeats `content` that
    /// many times.
    pub fn new_with(len: L, content: G) -> (node: Self)
        ensures
            node.len == len,
            node.array.content == content,
            !node.repeating,
    {
        ArrayNode { len, array: RandomArray::with_length(0, content), repeating: false }
    }

    /// Whether one resumption of the repetition leads from `array` to
    /// `array_after` with the outcome `out`, and `repeating` says afterwards
    /// whether its drive goes on.
    pub open spec fn repeats(
        array: RandomArray<G>,
        array_after: RandomArray<G>,
        out: GeneratorState<
            G::Yield,
            Result<Vec<<G::Return as GeneratorResult>::Ok>, <G::Return as GeneratorResult>::Err>,
        >,
        repeating: bool,
    ) -> bool {
        &&& array.resumes(&array_after, out)
        &&& repeating == !(out is Complete)
    }

    /// Whether the repetition of `length` times the element `content` may be
    /// resumed for the first time with the outcome `out`, leaving `array_after`.
    pub open spec fn starts(
        content: G,
        length: u64,
        array_after: RandomArray<G>,
        out: GeneratorState<
            G::Yield,
            Result<Vec<<G::Return as GeneratorResult>::Ok>, <G::Return as GeneratorResult>::Err>,
        >,
        repeating: bool,
    ) -> bool {
        exists|fresh: RandomArray<G>|
            {
                &&& fresh.content == content
                &&& fresh.remaining == length
                &&& fresh.values@.len() == 0
                &&& #[trigger] Self::repeats(fresh, array_after, out, repeating)
            }
    }

    /// What the node makes of the outcome `len_out` of the length generator:
    /// a fragment passes, a failure ends the drive, and a length starts the
    /// repetition, which is resumed at once.
    pub open spec fn sizes(
        array: RandomArray<G>,
        len_out: GeneratorState<L::Yield, L::Return>,
        array_after: RandomArray<G>,
        out: GeneratorState<
            G::Yield,
            Result<Vec<<G::Return as GeneratorResult>::Ok>, <G::Return as GeneratorResult>::Err>,
        >,
        repeating: bool,
    ) -> bool {
        match len_out {
            GeneratorState::Yielded(y) => {
                &&& out == GeneratorState::<
                    G::Yield,
                    Result<
                        Vec<<G::Return as GeneratorResult>::Ok>,
                        <G::Return as GeneratorResult>::Err,
                    >,
                >::Yielded(y)
                &&& array_after == array
                &&& !repeating
            },
            GeneratorState::Complete(c) => match c.result() {
                Err(e) => {
                    &&& out == GeneratorState::<
                        G::Yield,
                        Result<
                            Vec<<G::Return as GeneratorResult>::Ok>,
                            <G::Return as GeneratorResult>::Err,
                        >,
                    >::Complete(Err(e))
                    &&& array_after == array
                    &&& !repeating
                },
                Ok(length) => Self::starts(array.content, length, array_after, out, repeating),
            },
        }
    }
}

impl<L, G> Generator for ArrayNode<L, G> where
    L: Generator<Yield = G::Yield>,
    L::Return: GeneratorResult<Ok = u64, Err = <G::Return as GeneratorResult>::Err>,
    G: Generator,
    G::Return: GeneratorResult,
 {
    type Yield = G::Yield;

    type Return = Result<
        Vec<<G::Return as GeneratorResult>::Ok>,
        <G::Return as GeneratorResult>::Err,
    >;

    open spec fn inv(&self) -> bool {
        &&& self.len.inv()
        &&& self.array.inv()
    }

    open spec fn resumes(
        &self,
        after: &Self,
        out: GeneratorState<Self::Yield, Self::Return>,
    ) -> bool {
        if self.repeating {
            &&& after.len == self.len
            &&& Self::repeats(self.array, after.array, out, after.repeating)
        } else {
            exists|len_out: GeneratorState<L::Yield, L::Return>|
                {
                    &&& #[trigger] self.len.resumes(&after.len, len_out)
                    &&& Self::sizes(self.array, len_out, after.array, out, after.repeating)
                }
        }
    }

    proof fn lemma_resumption_keeps_inv(
        &self,
        after: &Self,
        out: GeneratorState<Self::Yield, Self::Return>,
    ) {
        if self.repeating {
            self.array.lemma_resumption_keeps_inv(&after.array, out);
        } else {
            let len_out = choose|len_out: GeneratorState<L::Yield, L::Return>|
                {
                    &&& #[trigger] self.len.resumes(&after.len, len_out)
                    &&& Self::sizes(self.array, len_out, after.array, out, after.repeating)
                };
            self.len.lemma_resumption_keeps_inv(&after.len, len_out);
            if let GeneratorState::Complete(c) = len_out {
                if let Ok(length) = c.result() {
                    let fresh = choose|fresh: RandomArray<G>|
                        {
                            &&& fresh.content == self.array.content
                            &&& fresh.remaining == length
                            &&& fresh.values@.len() == 0
                            &&& #[trigger] Self::repeats(fresh, after.array, out, after.repeating)
                        };
                    fresh.lemma_resumption_keeps_inv(&after.array, out);
                }
            }
        }
    }

    fn next(&mut self, rng: &mut rand::rngs::StdRng) -> (out: GeneratorState<
        Self::Yield,
        Self::Return,
    >) {
        if !self.repeating {
            let len_out = self.len.next(rng);
            let ghost seen = len_out;
            match len_out {
                GeneratorState::Yielded(y) => {
                    let out = GeneratorState::Yielded(y);
                    assert(Self::sizes(old(self).array, seen, self.array, out, self.repeating));
                    return out;
                },
                GeneratorState::Complete(c) => match c.into_result() {
                    Err(e) => {
                        let out = GeneratorState::Complete(Err(e));
                        assert(Self::sizes(old(self).array, seen, self.array, out, self.repeating));
                        return out;
                    },
                    Ok(length) => {
                        self.array.restart(length);
                        let ghost fresh = self.array;
                        let out = self.array.next(rng);
                        self.repeating = !out.is_complete();
                        assert(Self::repeats(fresh, self.array, out, self.repeating));
                        assert(Self::starts(
                            old(self).array.content,
                            length,
                            self.array,
                            out,
                            self.repeating,
                        ));
                        assert(Self::sizes(old(self).array, seen, self.array, out, self.repeating));
                        return out;
                    },
                },
            }
        }
        let out = self.array.next(rng);
        self.repeating = !out.is_complete();
        out
    }
}

impl<G> Finite for RandomArray<G> where G: Finite, G::Return: GeneratorResult {
    open spec fn limit() -> nat {
        0xffff_ffff_ffff_ffff * G::limit()
    }

    open spec fn pending(&self) -> nat {
        if self.remaining == 0 {
            0
        } else {
            self.content.pending() + (self.remaining - 1) as nat * G::limit()
        }
    }

    proof fn lemma_pending_within_limit(&self) {
        self.content.lemma_pending_within_limit();
        if self.remaining != 0 {
            assert(self.content.pending() + (self.remaining - 1) * G::limit() <= self.remaining
                * G::limit()) by (nonlinear_arith)
                requires
                    self.content.pending() <= G::limit(),
            ;
            assert(self.remaining * G::limit() <= 0xffff_ffff_ffff_ffff * G::limit())
                by (nonlinear_arith)
                requires
                    self.remaining <= 0xffff_ffff_ffff_ffff,
            ;
        }
    }

    proof fn lemma_fragment_uses_pending(&self, after: &Self, fragment: Self::Yield) {
        if self.resumes(after, GeneratorState::Yielded(fragment)) {
            let out = GeneratorState::<Self::Yield, Self::Return>::Yielded(fragment);
            let (states, values) = choose|
                states: Seq<G>,
                values: Seq<<G::Return as GeneratorResult>::Ok>,
            |
                {
                    &&& #[trigger] completes_each(states, values)
                    &&& states[0] == self.content
                    &&& values.len() <= self.remaining
                    &&& Self::ends(
                        states.last(),
                        self.values@ + values,
                        self.remaining - values.len(),
                        after,
                        out,
                    )
                };
            let passed = values.len();
            let left = self.remaining - passed;
            let element = states.last();
            lemma_completions_keep_inv(states, values, states.len() - 1);
            let inner_out = choose|inner_out: GeneratorState<G::Yield, G::Return>| #[trigger]
                element.resumes(&after.content, inner_out) && inner_out is Yielded;
            element.lemma_fragment_uses_pending(&after.content, fragment);
            element.lemma_pending_within_limit();
            if passed > 0 {
                assert(G::limit() + (left - 1) * G::limit() <= (self.remaining - 1) * G::limit())
                    by (nonlinear_arith)
                    requires
                        1 <= left,
                        left + 1 <= self.remaining,
                ;
            }
        }
    }
}

impl<L, G> Finite for ArrayNode<L, G> where
    L: Finite<Yield = G::Yield>,
    L::Return: GeneratorResult<Ok = u64, Err = <G::Return as GeneratorResult>::Err>,
    G: Finite,
    G::Return: GeneratorResult,
 {
    open spec fn limit() -> nat {
        L::limit() + 1 + RandomArray::<G>::limit()
    }

    open spec fn pending(&self) -> nat {
        if self.repeating {
            self.array.pending()
        } else {
            self.len.pending() + 1 + RandomArray::<G>::limit()
        }
    }

    proof fn lemma_pending_within_limit(&self) {
        self.len.lemma_pending_within_limit();
        self.array.lemma_pending_within_limit();
    }

    proof fn lemma_fragment_uses_pending(&self, after: &Self, fragment: Self::Yield) {
        if self.resumes(after, GeneratorState::Yielded(fragment)) {
            let out = GeneratorState::<Self::Yield, Self::Return>::Yielded(fragment);
            if self.repeating {
                self.array.lemma_fragment_uses_pending(&after.array, fragment);
            } else {
                let len_out = choose|len_out: GeneratorState<L::Yield, L::Return>|
                    {
                        &&& #[trigger] self.len.resumes(&after.len, len_out)
                        &&& Self::sizes(self.array, len_out, after.array, out, after.repeating)
                    };
                match len_out {
                    GeneratorState::Yielded(y) => {
                        self.len.lemma_fragment_uses_pending(&after.len, fragment);
                    },
                    GeneratorState::Complete(c) => {
                        let length = c.result()->Ok_0;
                        let fresh = choose|fresh: RandomArray<G>|
                            {
                                &&& fresh.content == self.array.content
                                &&& fresh.remaining == length
                                &&& fresh.values@.len() == 0
                                &&& #[trigger] Self::repeats(fresh, after.array, out, after.repeating)
                            };
                        fresh.lemma_pending_within_limit();
                        fresh.lemma_fragment_uses_pending(&after.array, fragment);
                    },
                }
            }
        }
    }
}

/// `states` is a run of resumptions with the outcomes `outs`, one for each
/// step: fragments and completions as they come.
pub open spec fn run<G: Generator>(
    states: Seq<G>,
    outs: Seq<GeneratorState<G::Yield, G::Return>>,
) -> bool {
    &&& states.len() == outs.len() + 1
    &&& forall|i: int|
        0 <= i < outs.len() ==> (#[trigger] states[i]).resumes(&states[i + 1], outs[i])
}

/// The fragments among the outcomes `outs`, in their order.
pub open spec fn fragments_of<Y, R>(outs: Seq<GeneratorState<Y, R>>) -> Seq<Y>
    decreases outs.len(),
{
    if outs.len() == 0 {
        Seq::empty()
    } else {
        match outs.last() {
            GeneratorState::Yielded(y) => fragments_of(outs.drop_last()).push(y),
            GeneratorState::Complete(_) => fragments_of(outs.drop_last()),
        }
    }
}

/// The payloads of the successes among the outcomes `outs`, in their order.
pub open spec fn successes_of<Y, R: GeneratorResult>(outs: Seq<GeneratorState<Y, R>>) -> Seq<R::Ok>
    decreases outs.len(),
{
    if outs.len() == 0 {
        Seq::empty()
    } else {
        match outs.last() {
            GeneratorState::Complete(ret) => match ret.result() {
                Ok(value) => successes_of(outs.drop_last()).push(value),
                Err(_) => successes_of(outs.drop_last()),
            },
            GeneratorState::Yielded(_) => successes_of(outs.drop_last()),
        }
    }
}

/// Whether no drive among the outcomes `outs` fails.
pub open spec fn all_succeed<Y, R: GeneratorResult>(outs: Seq<GeneratorState<Y, R>>) -> bool {
    forall|i: int|
        0 <= i < outs.len() ==> (#[trigger] outs[i] matches GeneratorState::Complete(ret)
            ==> ret.result() is Ok)
}

/// Whether the element has so far run through `states` with the outcomes
/// `outs`, none of them a failure, from `content` to `element`, and these
/// outcomes hold the fragments `fragments` and the successes `values`.
pub open spec fn tallies<G>(
    content: G,
    states: Seq<G>,
    outs: Seq<GeneratorState<G::Yield, G::Return>>,
    element: G,
    fragments: Seq<G::Yield>,
    values: Seq<<G::Return as GeneratorResult>::Ok>,
) -> bool where G: Generator, G::Return: GeneratorResult {
    &&& run(states, outs)
    &&& states[0] == content
    &&& states.last() == element
    &&& all_succeed(outs)
    &&& fragments_of(outs) == fragments
    &&& successes_of(outs) == values
}

/// One more outcome at the end of a run.
proof fn lemma_run_goes_on<G>(
    content: G,
    states: Seq<G>,
    outs: Seq<GeneratorState<G::Yield, G::Return>>,
    element: G,
    fragments: Seq<G::Yield>,
    values: Seq<<G::Return as GeneratorResult>::Ok>,
    after: G,
    out: GeneratorState<G::Yield, G::Return>,
) where G: Generator, G::Return: GeneratorResult
    requires
        tallies(content, states, outs, element, fragments, values),
        element.resumes(&after, out),
    ensures
        run(states.push(after), outs.push(out)),
        states.push(after)[0] == content,
        states.push(after).last() == after,
        all_succeed(outs.push(out)) <==> !(out matches GeneratorState::Complete(ret)
            && ret.result() is Err),
        fragments_of(outs.push(out)) == match out {
            GeneratorState::Yielded(y) => fragments.push(y),
            GeneratorState::Complete(_) => fragments,
        },
        successes_of(outs.push(out)) == match out {
            GeneratorState::Complete(ret) => match ret.result() {
                Ok(value) => values.push(value),
                Err(_) => values,
            },
            GeneratorState::Yielded(_) => values,
        },
        outs.push(out).drop_last() == outs,
        outs.push(out).last() == out,
{
    let longer = outs.push(out);
    assert(longer.drop_last() =~= outs);
    assert(longer.last() == out);
    let further = states.push(after);
    assert forall|i: int| 0 <= i < longer.len() implies (#[trigger] further[i]).resumes(
        &further[i + 1],
        longer[i],
    ) by {
        if i < outs.len() {
            assert(states[i].resumes(&states[i + 1], outs[i]));
        }
    }
    if !(out matches GeneratorState::Complete(ret) && ret.result() is Err) {
        assert forall|i: int| 0 <= i < longer.len() implies (#[trigger] longer[i]
            matches GeneratorState::Complete(ret) ==> ret.result() is Ok) by {
            if i < outs.len() {
                assert(outs[i] == longer[i]);
            }
        }
    } else {
        assert(longer[longer.len() - 1] == out);
    }
}

/// The repetitions that complete at once at the start of a resumption, added
/// to the run of the element.
proof fn lemma_run_takes_completions<G>(
    content: G,
    states: Seq<G>,
    outs: Seq<GeneratorState<G::Yield, G::Return>>,
    fragments: Seq<G::Yield>,
    values: Seq<<G::Return as GeneratorResult>::Ok>,
    steps: Seq<G>,
    completed: Seq<<G::Return as GeneratorResult>::Ok>,
    upto: int,
) -> (longer: (Seq<G>, Seq<GeneratorState<G::Yield, G::Return>>)) where
    G: Generator,
    G::Return: GeneratorResult,

    requires
        tallies(content, states, outs, steps[0], fragments, values),
        completes_each(steps, completed),
        0 <= upto <= completed.len(),
    ensures
        tallies(
            content,
            longer.0,
            longer.1,
            steps[upto],
            fragments,
            values + completed.take(upto),
        ),
        upto == 0 ==> longer.1 == outs,
        upto > 0 ==> longer.1.last() is Complete,
    decreases upto,
{
    if upto == 0 {
        assert(values + completed.take(0) =~= values);
        (states, outs)
    } else {
        let shorter = lemma_run_takes_completions(
            content,
            states,
            outs,
            fragments,
            values,
            steps,
            completed,
            upto - 1,
        );
        assert(completes_with(steps[upto - 1], steps[upto], completed[upto - 1]));
        let ret = choose|ret: G::Return|
            {
                &&& #[trigger] steps[upto - 1].resumes(&steps[upto], GeneratorState::Complete(ret))
                &&& ret.result() == Ok::<
                    <G::Return as GeneratorResult>::Ok,
                    <G::Return as GeneratorResult>::Err,
                >(completed[upto - 1])
            };
        lemma_run_goes_on(
            content,
            shorter.0,
            shorter.1,
            steps[upto - 1],
            fragments,
            values + completed.take(upto - 1),
            steps[upto],
            GeneratorState::Complete(ret),
        );
        assert((values + completed.take(upto - 1)).push(completed[upto - 1]) =~= values
            + completed.take(upto));
        (shorter.0.push(steps[upto]), shorter.1.push(GeneratorState::Complete(ret)))
    }
}

/// What a run of the element with the outcomes `outs` says of the drive of a
/// repetition of `length` times that emitted `fragments` and completed with
/// `ret`: the fragments of the drive are those of the run; a success holds the
/// successes of the run, `length` of them, no repetition failed, and the run
/// ends with the last of them; a failure is that of the last outcome of the
/// run, which comes after fewer than `length` successes and no other failure.
pub open spec fn accounts_for<G>(
    outs: Seq<GeneratorState<G::Yield, G::Return>>,
    length: int,
    fragments: Seq<G::Yield>,
    ret: Result<Vec<<G::Return as GeneratorResult>::Ok>, <G::Return as GeneratorResult>::Err>,
) -> bool where G: Generator, G::Return: GeneratorResult {
    &&& fragments_of(outs) == fragments
    &&& match ret {
        Ok(values) => {
            &&& all_succeed(outs)
            &&& successes_of(outs) == values@
            &&& values@.len() == length
            &&& outs.len() == 0 || outs.last() is Complete
        },
        Err(e) => {
            &&& outs.len() > 0
            &&& outs.last() matches GeneratorState::Complete(failed)
            &&& failed.result() == Err::<
                <G::Return as GeneratorResult>::Ok,
                <G::Return as GeneratorResult>::Err,
            >(e)
            &&& all_succeed(outs.drop_last())
            &&& successes_of(outs.drop_last()).len() < length
        },
    }
}

/// One resumption of the repetition that emits a fragment, added to the run
/// of the element.
proof fn lemma_run_takes_fragment<G>(
    content: G,
    states: Seq<G>,
    outs: Seq<GeneratorState<G::Yield, G::Return>>,
    fragments: Seq<G::Yield>,
    array: RandomArray<G>,
    after: RandomArray<G>,
    fragment: G::Yield,
) -> (longer: (Seq<G>, Seq<GeneratorState<G::Yield, G::Return>>)) where
    G: Generator,
    G::Return: GeneratorResult,

    requires
        tallies(content, states, outs, array.content, fragments, array.values@),
        array.resumes(&after, GeneratorState::Yielded(fragment)),
    ensures
        tallies(
            content,
            longer.0,
            longer.1,
            after.content,
            fragments.push(fragment),
            after.values@,
        ),
        after.remaining + after.values@.len() == array.remaining + array.values@.len(),
        after.remaining > 0,
{
    let out = GeneratorState::<
        G::Yield,
        Result<Vec<<G::Return as GeneratorResult>::Ok>, <G::Return as GeneratorResult>::Err>,
    >::Yielded(fragment);
    let (steps, completed) = choose|
        steps: Seq<G>,
        completed: Seq<<G::Return as GeneratorResult>::Ok>,
    |
        {
            &&& #[trigger] completes_each(steps, completed)
            &&& steps[0] == array.content
            &&& completed.len() <= array.remaining
            &&& RandomArray::<G>::ends(
                steps.last(),
                array.values@ + completed,
                array.remaining - completed.len(),
                &after,
                out,
            )
        };
    let passed = lemma_run_takes_completions(
        content,
        states,
        outs,
        fragments,
        array.values@,
        steps,
        completed,
        completed.len() as int,
    );
    assert(completed.take(completed.len() as int) =~= completed);
    let inner_out = choose|inner_out: GeneratorState<G::Yield, G::Return>| #[trigger]
        steps.last().resumes(&after.content, inner_out) && inner_out
            == GeneratorState::<G::Yield, G::Return>::Yielded(fragment);
    lemma_run_goes_on(
        content,
        passed.0,
        passed.1,
        steps.last(),
        fragments,
        array.values@ + completed,
        after.content,
        inner_out,
    );
    (passed.0.push(after.content), passed.1.push(inner_out))
}

/// The resumption of the repetition that ends its drive, added to the run of
/// the element.
proof fn lemma_run_takes_end<G>(
    content: G,
    states: Seq<G>,
    outs: Seq<GeneratorState<G::Yield, G::Return>>,
    fragments: Seq<G::Yield>,
    array: RandomArray<G>,
    after: RandomArray<G>,
    ret: Result<Vec<<G::Return as GeneratorResult>::Ok>, <G::Return as GeneratorResult>::Err>,
) -> (longer: (Seq<G>, Seq<GeneratorState<G::Yield, G::Return>>)) where
    G: Generator,
    G::Return: GeneratorResult,

    requires
        tallies(content, states, outs, array.content, fragments, array.values@),
        array.resumes(&after, GeneratorState::Complete(ret)),
        array.remaining == 0 ==> outs.len() == 0,
    ensures
        run(longer.0, longer.1),
        longer.0[0] == content,
        longer.0.last() == after.content,
        accounts_for::<G>(longer.1, array.remaining + array.values@.len(), fragments, ret),
{
    let out = GeneratorState::<
        G::Yield,
        Result<Vec<<G::Return as GeneratorResult>::Ok>, <G::Return as GeneratorResult>::Err>,
    >::Complete(ret);
    let (steps, completed) = choose|
        steps: Seq<G>,
        completed: Seq<<G::Return as GeneratorResult>::Ok>,
    |
        {
            &&& #[trigger] completes_each(steps, completed)
            &&& steps[0] == array.content
            &&& completed.len() <= array.remaining
            &&& RandomArray::<G>::ends(
                steps.last(),
                array.values@ + completed,
                array.remaining - completed.len(),
                &after,
                out,
            )
        };
    let passed = lemma_run_takes_completions(
        content,
        states,
        outs,
        fragments,
        array.values@,
        steps,
        completed,
        completed.len() as int,
    );
    assert(completed.take(completed.len() as int) =~= completed);
    let collected = array.values@ + completed;
    assert(collected.len() == array.values@.len() + completed.len());
    if array.remaining - completed.len() == 0 {
        assert(ret matches Ok(values) && values@ == collected);
        passed
    } else {
        let inner_out = choose|inner_out: GeneratorState<G::Yield, G::Return>|
            {
                &&& #[trigger] steps.last().resumes(&after.content, inner_out)
                &&& inner_out matches GeneratorState::Complete(failed)
                &&& failed.result() matches Err(e)
                &&& ret == Err::<
                    Vec<<G::Return as GeneratorResult>::Ok>,
                    <G::Return as GeneratorResult>::Err,
                >(e)
            };
        lemma_run_goes_on(
            content,
            passed.0,
            passed.1,
            steps.last(),
            fragments,
            collected,
            after.content,
            inner_out,
        );
        (passed.0.push(after.content), passed.1.push(inner_out))
    }
}

/// The run of the element that goes with the first `upto` steps of a drive of
/// the repetition.
proof fn lemma_run_follows_drive<G>(
    arrays: Seq<RandomArray<G>>,
    fragments: Seq<G::Yield>,
    upto: int,
) -> (so_far: (Seq<G>, Seq<GeneratorState<G::Yield, G::Return>>)) where
    G: Generator,
    G::Return: GeneratorResult,

    requires
        chain(arrays, fragments),
        arrays[0].values@.len() == 0,
        0 <= upto <= fragments.len(),
    ensures
        tallies(
            arrays[0].content,
            so_far.0,
            so_far.1,
            arrays[upto].content,
            fragments.take(upto),
            arrays[upto].values@,
        ),
        arrays[upto].remaining + arrays[upto].values@.len() == arrays[0].remaining,
        upto == 0 ==> so_far.1.len() == 0,
        upto > 0 ==> arrays[upto].remaining > 0,
    decreases upto,
{
    if upto == 0 {
        let states = seq![arrays[0].content];
        let outs = Seq::<GeneratorState<G::Yield, G::Return>>::empty();
        assert(fragments.take(0) =~= Seq::<G::Yield>::empty());
        assert(arrays[0].values@ =~= Seq::<<G::Return as GeneratorResult>::Ok>::empty());
        (states, outs)
    } else {
        let before = lemma_run_follows_drive(arrays, fragments, upto - 1);
        assert(arrays[upto - 1].resumes(
            &arrays[upto],
            GeneratorState::Yielded(fragments[upto - 1]),
        ));
        let longer = lemma_run_takes_fragment(
            arrays[0].content,
            before.0,
            before.1,
            fragments.take(upto - 1),
            arrays[upto - 1],
            arrays[upto],
            fragments[upto - 1],
        );
        assert(fragments.take(upto - 1).push(fragments[upto - 1]) =~= fragments.take(upto));
        longer
    }
}

/// A drive of a repetition is a run of its element, repetition by repetition.
///
/// Take a repetition of `length` times that has collected nothing yet, and a
/// drive of it that emits `fragments` and completes with `ret`. Then the
/// element has run from its state at the start to its state at the end, and of
/// that run:
/// - its fragments are exactly `fragments`, in their order;
/// - if `ret` is a success, it holds the successes of the run, in their
///   order, there are exactly `length` of them, nothing in the run failed, and
///   the run ends with the last of them, so that it is `length` drives of the
///   element and no more; with a length of zero there is no fragment and no
///   value;
/// - if `ret` is a failure, it is the failure of the last outcome of the run:
///   nothing was driven after it, fewer than `length` repetitions succeeded
///   before it, and none failed before it.
pub proof fn lemma_array_drive_is_repetitions<G>(
    start: RandomArray<G>,
    fragments: Seq<G::Yield>,
    ret: Result<Vec<<G::Return as GeneratorResult>::Ok>, <G::Return as GeneratorResult>::Err>,
    end: RandomArray<G>,
) where G: Generator, G::Return: GeneratorResult
    requires
        start.values@.len() == 0,
        drives(start, fragments, ret, end),
    ensures
        exists|states: Seq<G>, outs: Seq<GeneratorState<G::Yield, G::Return>>|
            {
                &&& #[trigger] run(states, outs)
                &&& states[0] == start.content
                &&& states.last() == end.content
                &&& accounts_for::<G>(outs, start.remaining as int, fragments, ret)
            },
        start.remaining == 0 ==> fragments.len() == 0 && (ret matches Ok(values) && values@.len()
            == 0),
{
    let arrays = choose|arrays: Seq<RandomArray<G>>|
        {
            &&& #[trigger] chain(arrays, fragments)
            &&& arrays[0] == start
            &&& arrays.last().resumes(&end, GeneratorState::Complete(ret))
        };
    let so_far = lemma_run_follows_drive(arrays, fragments, fragments.len() as int);
    assert(fragments.take(fragments.len() as int) =~= fragments);
    let whole = lemma_run_takes_end(
        start.content,
        so_far.0,
        so_far.1,
        fragments,
        arrays.last(),
        end,
        ret,
    );
    assert(run(whole.0, whole.1));
    if start.remaining == 0 {
        if fragments.len() > 0 {
            let first = lemma_run_follows_drive(arrays, fragments, 1);
        }
    }
}

/// Whether `fresh` is the repetition of `length` times the element
/// `content` before its first resumption.
pub open spec fn is_fresh<G>(fresh: RandomArray<G>, content: G, length: u64) -> bool where
    G: Generator,
    G::Return: GeneratorResult,
 {
    &&& fresh.content == content
    &&& fresh.remaining == length
    &&& fresh.values@.len() == 0
}

/// Whether the first `upto` steps of a drive of the node, which emitted
/// `fragments`, were all steps of the length generator, through `lens`.
pub open spec fn still_sizing<L, G>(
    start: ArrayNode<L, G>,
    node: ArrayNode<L, G>,
    fragments: Seq<G::Yield>,
    lens: Seq<L>,
) -> bool where
    L: Generator<Yield = G::Yield>,
    L::Return: GeneratorResult<Ok = u64, Err = <G::Return as GeneratorResult>::Err>,
    G: Generator,
    G::Return: GeneratorResult,
 {
    &&& !node.repeating
    &&& node.array == start.array
    &&& chain(lens, fragments)
    &&& lens[0] == start.len
    &&& lens.last() == node.len
}

/// Whether the steps of a drive of the node that emitted `fragments` were
/// first a whole drive of the length generator, through `lens` and with the
/// length `length`, which emitted the first `split` of the fragments, and
/// then steps of the repetition of that length, through `arrays`.
pub open spec fn now_repeating<L, G>(
    start: ArrayNode<L, G>,
    node: ArrayNode<L, G>,
    fragments: Seq<G::Yield>,
    lens: Seq<L>,
    split: int,
    length: L::Return,
    arrays: Seq<RandomArray<G>>,
) -> bool where
    L: Generator<Yield = G::Yield>,
    L::Return: GeneratorResult<Ok = u64, Err = <G::Return as GeneratorResult>::Err>,
    G: Generator,
    G::Return: GeneratorResult,
 {
    &&& node.repeating
    &&& 0 <= split <= fragments.len()
    &&& chain(lens, fragments.take(split))
    &&& lens[0] == start.len
    &&& lens.last().resumes(&node.len, GeneratorState::Complete(length))
    &&& length.result() matches Ok(n)
    &&& is_fresh(arrays[0], start.array.content, n)
    &&& chain(arrays, fragments.skip(split))
    &&& arrays.last() == node.array
}

/// One more step of a drive of the node that is repeating already.
proof fn lemma_node_goes_on_repeating<L, G>(
    start: ArrayNode<L, G>,
    node: ArrayNode<L, G>,
    after: ArrayNode<L, G>,
    fragments: Seq<G::Yield>,
    fragment: G::Yield,
    lens: Seq<L>,
    split: int,
    length: L::Return,
    arrays: Seq<RandomArray<G>>,
) where
    L: Generator<Yield = G::Yield>,
    L::Return: GeneratorResult<Ok = u64, Err = <G::Return as GeneratorResult>::Err>,
    G: Generator,
    G::Return: GeneratorResult,

    requires
        now_repeating(start, node, fragments, lens, split, length, arrays),
        node.resumes(&after, GeneratorState::Yielded(fragment)),
    ensures
        now_repeating(
            start,
            after,
            fragments.push(fragment),
            lens,
            split,
            length,
            arrays.push(after.array),
        ),
{
    let longer = fragments.push(fragment);
    assert(fragments.skip(split).push(fragment) =~= longer.skip(split));
    assert(longer.take(split) =~= fragments.take(split));
    let further = arrays.push(after.array);
    assert forall|i: int| 0 <= i < longer.skip(split).len() implies (#[trigger] further[i]).resumes(
        &further[i + 1],
        GeneratorState::Yielded(longer.skip(split)[i]),
    ) by {
        if i < fragments.skip(split).len() {
            assert(arrays[i].resumes(
                &arrays[i + 1],
                GeneratorState::Yielded(fragments.skip(split)[i]),
            ));
        }
    }
}

/// One more step of a drive of the node that is still with its length
/// generator: the length generator emits a fragment, or it gives the length and
/// the repetition emits its first fragment.
proof fn lemma_node_goes_on_sizing<L, G>(
    start: ArrayNode<L, G>,
    node: ArrayNode<L, G>,
    after: ArrayNode<L, G>,
    fragments: Seq<G::Yield>,
    fragment: G::Yield,
    lens: Seq<L>,
) -> (so_far: (Seq<L>, int, L::Return, Seq<RandomArray<G>>)) where
    L: Generator<Yield = G::Yield>,
    L::Return: GeneratorResult<Ok = u64, Err = <G::Return as GeneratorResult>::Err>,
    G: Generator,
    G::Return: GeneratorResult,

    requires
        still_sizing(start, node, fragments, lens),
        node.resumes(&after, GeneratorState::Yielded(fragment)),
    ensures
        still_sizing(start, after, fragments.push(fragment), so_far.0) || now_repeating(
            start,
            after,
            fragments.push(fragment),
            so_far.0,
            so_far.1,
            so_far.2,
            so_far.3,
        ),
{
    let out = GeneratorState::<
        G::Yield,
        Result<Vec<<G::Return as GeneratorResult>::Ok>, <G::Return as GeneratorResult>::Err>,
    >::Yielded(fragment);
    let longer = fragments.push(fragment);
    let len_out = choose|len_out: GeneratorState<L::Yield, L::Return>|
        {
            &&& #[trigger] node.len.resumes(&after.len, len_out)
            &&& ArrayNode::<L, G>::sizes(node.array, len_out, after.array, out, after.repeating)
        };
    match len_out {
        GeneratorState::Yielded(y) => {
            let further = lens.push(after.len);
            assert forall|i: int| 0 <= i < longer.len() implies (#[trigger] further[i]).resumes(
                &further[i + 1],
                GeneratorState::Yielded(longer[i]),
            ) by {
                if i < fragments.len() {
                    assert(lens[i].resumes(&lens[i + 1], GeneratorState::Yielded(fragments[i])));
                }
            }
            (further, 0, arbitrary(), Seq::empty())
        },
        GeneratorState::Complete(length) => {
            let n = length.result()->Ok_0;
            let fresh = choose|fresh: RandomArray<G>|
                {
                    &&& fresh.content == node.array.content
                    &&& fresh.remaining == n
                    &&& fresh.values@.len() == 0
                    &&& #[trigger] ArrayNode::<L, G>::repeats(
                        fresh,
                        after.array,
                        out,
                        after.repeating,
                    )
                };
            let arrays = seq![fresh, after.array];
            let split = fragments.len() as int;
            assert(longer.take(split) =~= fragments);
            assert(longer.skip(split) =~= seq![fragment]);
            (lens, split, length, arrays)
        },
    }
}

/// The steps of the length generator and of the repetition that go with the
/// first `upto` steps of a drive of the node.
proof fn lemma_node_follows_drive<L, G>(
    nodes: Seq<ArrayNode<L, G>>,
    fragments: Seq<G::Yield>,
    upto: int,
) -> (so_far: (Seq<L>, int, L::Return, Seq<RandomArray<G>>)) where
    L: Generator<Yield = G::Yield>,
    L::Return: GeneratorResult<Ok = u64, Err = <G::Return as GeneratorResult>::Err>,
    G: Generator,
    G::Return: GeneratorResult,

    requires
        chain(nodes, fragments),
        !nodes[0].repeating,
        0 <= upto <= fragments.len(),
    ensures
        still_sizing(nodes[0], nodes[upto], fragments.take(upto), so_far.0) || now_repeating(
            nodes[0],
            nodes[upto],
            fragments.take(upto),
            so_far.0,
            so_far.1,
            so_far.2,
            so_far.3,
        ),
    decreases upto,
{
    if upto == 0 {
        assert(fragments.take(0) =~= Seq::<G::Yield>::empty());
        (seq![nodes[0].len], 0, arbitrary(), Seq::empty())
    } else {
        let before = lemma_node_follows_drive(nodes, fragments, upto - 1);
        let fragment = fragments[upto - 1];
        assert(fragments.take(upto - 1).push(fragment) =~= fragments.take(upto));
        assert(nodes[upto - 1].resumes(&nodes[upto], GeneratorState::Yielded(fragment)));
        if nodes[upto - 1].repeating {
            lemma_node_goes_on_repeating(
                nodes[0],
                nodes[upto - 1],
                nodes[upto],
                fragments.take(upto - 1),
                fragment,
                before.0,
                before.1,
                before.2,
                before.3,
            );
            (before.0, before.1, before.2, before.3.push(nodes[upto].array))
        } else {
            lemma_node_goes_on_sizing(
                nodes[0],
                nodes[upto - 1],
                nodes[upto],
                fragments.take(upto - 1),
                fragment,
                before.0,
            )
        }
    }
}

/// A drive of the array node is a drive of its length generator and then a
/// drive of the repetition of the length that came out.
///
/// Take a node between drives, and a drive of it that emits `fragments` and
/// completes with `ret`. Then the length generator has made one drive, and the
/// fragments of that drive come first in `fragments`. If the length generator
/// failed, nothing follows them and `ret` is its failure. If it gave the
/// length `n`, what follows them are the fragments of one drive of the
/// repetition of `n` times the element, and `ret` is the payload of that
/// drive: [`lemma_array_drive_is_repetitions`] says what such a drive is.
pub proof fn lemma_node_drive_is_length_then_repetitions<L, G>(
    start: ArrayNode<L, G>,
    fragments: Seq<G::Yield>,
    ret: Result<Vec<<G::Return as GeneratorResult>::Ok>, <G::Return as GeneratorResult>::Err>,
    end: ArrayNode<L, G>,
) where
    L: Generator<Yield = G::Yield>,
    L::Return: GeneratorResult<Ok = u64, Err = <G::Return as GeneratorResult>::Err>,
    G: Generator,
    G::Return: GeneratorResult,

    requires
        !start.repeating,
        drives(start, fragments, ret, end),
    ensures
        !end.repeating,
        exists|split: int, length: L::Return|
            {
                &&& 0 <= split <= fragments.len()
                &&& #[trigger] drives(start.len, fragments.take(split), length, end.len)
                &&& match length.result() {
                    Err(e) => {
                        &&& split == fragments.len()
                        &&& ret == Err::<
                            Vec<<G::Return as GeneratorResult>::Ok>,
                            <G::Return as GeneratorResult>::Err,
                        >(e)
                        &&& end.array == start.array
                    },
                    Ok(n) => exists|fresh: RandomArray<G>|
                        {
                            &&& is_fresh(fresh, start.array.content, n)
                            &&& #[trigger] drives(fresh, fragments.skip(split), ret, end.array)
                        },
                }
            },
{
    let nodes = choose|nodes: Seq<ArrayNode<L, G>>|
        {
            &&& #[trigger] chain(nodes, fragments)
            &&& nodes[0] == start
            &&& nodes.last().resumes(&end, GeneratorState::Complete(ret))
        };
    let total = fragments.len() as int;
    let (lens, split, length, arrays) = lemma_node_follows_drive(nodes, fragments, total);
    assert(fragments.take(total) =~= fragments);
    let node = nodes.last();
    let out = GeneratorState::<
        G::Yield,
        Result<Vec<<G::Return as GeneratorResult>::Ok>, <G::Return as GeneratorResult>::Err>,
    >::Complete(ret);
    if node.repeating {
        assert(drives(start.len, fragments.take(split), length, end.len));
        assert(drives(arrays[0], fragments.skip(split), ret, end.array));
    } else {
        let len_out = choose|len_out: GeneratorState<L::Yield, L::Return>|
            {
                &&& #[trigger] node.len.resumes(&end.len, len_out)
                &&& ArrayNode::<L, G>::sizes(node.array, len_out, end.array, out, end.repeating)
            };
        let length = len_out->Complete_0;
        assert(drives(start.len, fragments.take(total), length, end.len));
        if let Ok(n) = length.result() {
            let fresh = choose|fresh: RandomArray<G>|
                {
                    &&& fresh.content == node.array.content
                    &&& fresh.remaining == n
                    &&& fresh.values@.len() == 0
                    &&& #[trigger] ArrayNode::<L, G>::repeats(fresh, end.array, out, end.repeating)
                };
            let arrays = seq![fresh];
            assert(fragments.skip(total) =~= Seq::<G::Yield>::empty());
            assert(chain(arrays, fragments.skip(total)));
            assert(drives(fresh, fragments.skip(total), ret, end.array));
        }
    }
}

/// Whether `value` is a value of the range from `low` to `high` and `text`
/// is its text under `pattern`.
pub open spec fn is_date_of_range(
    pattern: Seq<char>,
    low: ChronoValue,
    high: ChronoValue,
    value: ChronoValue,
    text: Seq<char>,
) -> bool {
    &&& low.precedes(value)
    &&& value.precedes(high)
    &&& formatted(value@, pattern) == Some(text)
}

/// Whether `values` are values of the range from `low` to `high`, each with
/// `pattern`, and `fragments` are their texts under it, one for one and in
/// their order.
pub open spec fn are_dates_of_range(
    pattern: Seq<char>,
    low: ChronoValue,
    high: ChronoValue,
    fragments: Seq<String>,
    values: Seq<ChronoValueAndFormat>,
) -> bool {
    &&& fragments.len() == values.len()
    &&& forall|i: int|
        0 <= i < values.len() ==> (#[trigger] values[i]).spec_format() == pattern
            && is_date_of_range(pattern, low, high, values[i].spec_value(), fragments[i]@)
}

/// What the first `upto` outcomes of a run of a date and time node amount to:
/// texts and values of the range by turns, and no failure.
proof fn lemma_run_of_dates(
    states: Seq<DateTimeNode>,
    outs: Seq<GeneratorState<String, Result<ChronoValueAndFormat, ChronoError>>>,
    low: ChronoValue,
    high: ChronoValue,
    upto: int,
)
    requires
        run(states, outs),
        states[0].0.held() is None,
        low.valid(),
        high.valid(),
        UniformChronoValue::is_range(low, high),
        !overruns(low@, high@),
        states[0].0.sampler().low() == low,
        states[0].0.sampler().span() == low.distance_to(high),
        writes_range(states[0].0.pattern(), low, high),
        0 <= upto <= outs.len(),
    ensures
        ({
            let node = states[upto].0;
            let pattern = states[0].0.pattern();
            let fragments = fragments_of(outs.take(upto));
            let values = successes_of(outs.take(upto));
            &&& node.sampler() == states[0].0.sampler()
            &&& node.pattern() == pattern
            &&& all_succeed(outs.take(upto))
            &&& upto > 0 && outs[upto - 1] is Complete ==> node.held() is None
            &&& match node.held() {
                None => are_dates_of_range(pattern, low, high, fragments, values),
                Some(value) => {
                    &&& fragments.len() == values.len() + 1
                    &&& are_dates_of_range(pattern, low, high, fragments.drop_last(), values)
                    &&& is_date_of_range(pattern, low, high, value, fragments.last()@)
                },
            }
        }),
    decreases upto,
{
    let pattern = states[0].0.pattern();
    if upto == 0 {
        assert(outs.take(0) =~= Seq::empty());
    } else {
        lemma_run_of_dates(states, outs, low, high, upto - 1);
        let before = states[upto - 1].0;
        let after = states[upto].0;
        let out = outs[upto - 1];
        let earlier = outs.take(upto - 1);
        let now = outs.take(upto);
        assert(earlier.push(out) =~= now);
        assert(now.drop_last() =~= earlier);
        assert(now.last() == out);
        assert(states[upto - 1].resumes(&states[upto], out));
        let fragments = fragments_of(earlier);
        let values = successes_of(earlier);
        match before.held() {
            Some(value) => {
                let pair = out->Complete_0->Ok_0;
                let longer = values.push(pair);
                assert(fragments.drop_last().push(fragments.last()) =~= fragments);
                assert forall|i: int| 0 <= i < longer.len() implies (#[trigger] longer[i]).spec_format()
                    == pattern && is_date_of_range(
                    pattern,
                    low,
                    high,
                    longer[i].spec_value(),
                    fragments[i]@,
                ) by {
                    if i < values.len() {
                        assert(values[i] == longer[i]);
                        assert(fragments.drop_last()[i] == fragments[i]);
                    }
                }
            },
            None => {
                let sampled = choose|sampled: Result<ChronoValue, ChronoError>|
                    {
                        &&& #[trigger] before.sampler().samples(sampled)
                        &&& RandomDateTime::emits(before.pattern(), sampled, after.held(), out)
                    };
                lemma_samples_lie_within_range(before.sampler(), low, high, sampled);
                let value = sampled->Ok_0;
                assert(formatted(value@, pattern) is Some);
                let written = out->Yielded_0;
                assert(fragments.push(written).drop_last() =~= fragments);
            },
        }
        assert(!(out matches GeneratorState::Complete(ret) && ret is Err));
        assert forall|i: int| 0 <= i < now.len() implies (#[trigger] now[i]
            matches GeneratorState::Complete(ret) ==> ret.result() is Ok) by {
            if i < earlier.len() {
                assert(earlier[i] == now[i]);
            }
        }
    }
}

/// A repetition of a date and time node gives values of its range, each with
/// its text.
///
/// Take a repetition that has collected nothing yet, of the node over the
/// values from `low` to `high`, two valid values of one granularity, `low` not
/// after `high`, such that the span from `low` to `high` does not lead past
/// `high`; the node is between drives. Take a drive of the repetition that
/// emits `fragments` and completes with `ret`. If the pattern of the node can
/// write every value of the range, `ret` is a success with as many values as
/// the length of the repetition; each value lies in the range and has the
/// pattern of the node, and the fragments are the texts of the values under
/// that pattern, one for one and in their order.
pub proof fn lemma_array_of_dates_is_dates_of_range(
    start: RandomArray<DateTimeNode>,
    low: ChronoValue,
    high: ChronoValue,
    fragments: Seq<String>,
    ret: Result<Vec<ChronoValueAndFormat>, ChronoError>,
    end: RandomArray<DateTimeNode>,
)
    requires
        start.values@.len() == 0,
        start.content.0.held() is None,
        low.valid(),
        high.valid(),
        UniformChronoValue::is_range(low, high),
        !overruns(low@, high@),
        start.content.0.sampler().low() == low,
        start.content.0.sampler().span() == low.distance_to(high),
        drives(start, fragments, ret, end),
    ensures
        writes_range(start.content.0.pattern(), low, high) ==> {
            &&& ret matches Ok(values)
            &&& values@.len() == start.remaining
            &&& are_dates_of_range(start.content.0.pattern(), low, high, fragments, values@)
        },
{
    lemma_array_drive_is_repetitions(start, fragments, ret, end);
    let (states, outs) = choose|
        states: Seq<DateTimeNode>,
        outs: Seq<GeneratorState<String, Result<ChronoValueAndFormat, ChronoError>>>,
    |
        {
            &&& #[trigger] run(states, outs)
            &&& states[0] == start.content
            &&& states.last() == end.content
            &&& accounts_for::<DateTimeNode>(outs, start.remaining as int, fragments, ret)
        };
    if writes_range(start.content.0.pattern(), low, high) {
        lemma_run_of_dates(states, outs, low, high, outs.len() as int);
        assert(outs.take(outs.len() as int) =~= outs);
        if let Err(e) = ret {
            assert(outs[outs.len() - 1] == outs.last());
        }
    }
}

/// An array node over a date and time node gives as many values of the range
/// as its length generator says, each with its text.
///
/// Take an array node between drives whose element is the node over the values
/// from `low` to `high`, as in [`lemma_array_of_dates_is_dates_of_range`], and
/// a drive of it that emits `fragments` and completes with `ret`. If the
/// pattern can write every value of the range, then the length generator has
/// made one drive, whose fragments come first; if it failed, `ret` is its
/// failure; if it gave the length `n`, `ret` is a success with `n` values of
/// the range, and the fragments that follow are their texts, one for one and
/// in their order.
pub proof fn lemma_array_node_of_dates_is_dates_of_range<L>(
    start: ArrayNode<L, DateTimeNode>,
    low: ChronoValue,
    high: ChronoValue,
    fragments: Seq<String>,
    ret: Result<Vec<ChronoValueAndFormat>, ChronoError>,
    end: ArrayNode<L, DateTimeNode>,
) where L: Generator<Yield = String>, L::Return: GeneratorResult<Ok = u64, Err = ChronoError>
    requires
        !start.repeating,
        start.array.content.0.held() is None,
        low.valid(),
        high.valid(),
        UniformChronoValue::is_range(low, high),
        !overruns(low@, high@),
        start.array.content.0.sampler().low() == low,
        start.array.content.0.sampler().span() == low.distance_to(high),
        drives(start, fragments, ret, end),
    ensures
        writes_range(start.array.content.0.pattern(), low, high) ==> exists|
            split: int,
            length: L::Return,
        |
            {
                &&& 0 <= split <= fragments.len()
                &&& #[trigger] drives(start.len, fragments.take(split), length, end.len)
                &&& match length.result() {
                    Err(e) => split == fragments.len() && ret == Err::<
                        Vec<ChronoValueAndFormat>,
                        ChronoError,
                    >(e),
                    Ok(n) => {
                        &&& ret matches Ok(values)
                        &&& values@.len() == n
                        &&& are_dates_of_range(
                            start.array.content.0.pattern(),
                            low,
                            high,
                            fragments.skip(split),
                            values@,
                        )
                    },
                }
            },
{
    lemma_node_drive_is_length_then_repetitions(start, fragments, ret, end);
    let (split, length) = choose|split: int, length: L::Return|
        {
            &&& 0 <= split <= fragments.len()
            &&& #[trigger] drives(start.len, fragments.take(split), length, end.len)
            &&& match length.result() {
                Err(e) => {
                    &&& split == fragments.len()
                    &&& ret == Err::<Vec<ChronoValueAndFormat>, ChronoError>(e)
                    &&& end.array == start.array
                },
                Ok(n) => exists|fresh: RandomArray<DateTimeNode>|
                    {
                        &&& is_fresh(fresh, start.array.content, n)
                        &&& #[trigger] drives(fresh, fragments.skip(split), ret, end.array)
                    },
            }
        };
    if let Ok(n) = length.result() {
        let fresh = choose|fresh: RandomArray<DateTimeNode>|
            {
                &&& is_fresh(fresh, start.array.content, n)
                &&& #[trigger] drives(fresh, fragments.skip(split), ret, end.array)
            };
        lemma_array_of_dates_is_dates_of_range(
            fresh,
            low,
            high,
            fragments.skip(split),
            ret,
            end.array,
        );
    }
}

} // verus!
