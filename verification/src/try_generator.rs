//! Combinators over generators whose final payload is a success or a failure.

use crate::generator::{
    chain, drive, drives, lemma_drive_keeps_inv, resumes_stage, Finite, Generator, GeneratorState,
};
use core::marker::PhantomData;
use std::collections::VecDeque;
use vstd::prelude::*;

verus! {

/// A final payload that is a success or a failure.
///
/// The trait stands for `Result` where a bound cannot name it. A payload is
/// known by its `result`: no two payloads have the same.
pub trait GeneratorResult: Sized {
    /// The payload of a success.
    type Ok;

    /// The payload of a failure.
    type Err;

    /// The payload as a `Result`.
    spec fn result(self) -> Result<Self::Ok, Self::Err>;

    /// Two payloads with the same `result` are the same payload.
    proof fn lemma_result_is_injective(self, other: Self)
        requires
            self.result() == other.result(),
        ensures
            self == other,
    ;

    /// Turns the payload into a `Result`.
    fn into_result(self) -> (r: Result<Self::Ok, Self::Err>)
        ensures
            r == self.result(),
    ;

    /// The successful payload that holds `ok`.
    fn from_ok(ok: Self::Ok) -> (s: Self)
        ensures
            s.result() == Ok::<Self::Ok, Self::Err>(ok),
    ;

    /// The failed payload that holds `err`.
    fn from_err(err: Self::Err) -> (s: Self)
        ensures
            s.result() == Err::<Self::Ok, Self::Err>(err),
    ;
}

impl<O, E> GeneratorResult for Result<O, E> {
    type Ok = O;

    type Err = E;

    open spec fn result(self) -> Result<O, E> {
        self
    }

    proof fn lemma_result_is_injective(self, other: Self) {
    }

    fn into_result(self) -> (r: Result<O, E>) {
        self
    }

    fn from_ok(ok: O) -> (s: Self) {
        Ok(ok)
    }

    fn from_err(err: E) -> (s: Self) {
        Err(err)
    }
}

/// A generator whose drives end in a success or a failure.
pub trait TryGenerator: Generator where
    Self::Return: GeneratorResult<
        Ok = <Self as TryGenerator>::Ok,
        Err = <Self as TryGenerator>::Error,
    >,
 {
    /// The payload of a successful drive.
    type Ok;

    /// The payload of a failed drive.
    type Error;

    /// Resumes the generator once.
    fn try_next(&mut self, rng: &mut rand::rngs::StdRng) -> (out: GeneratorState<
        Self::Yield,
        Self::Return,
    >)
        requires
            old(self).inv(),
        ensures
            final(self).inv(),
            old(self).resumes(final(self), out),
    ;

    /// Drives the generator to the end of the current drive and hands back its
    /// final payload; the fragments on the way are dropped.
    fn try_complete(&mut self, rng: &mut rand::rngs::StdRng) -> (ret: Self::Return) where
        Self: Finite,

        requires
            old(self).inv(),
        ensures
            final(self).inv(),
            exists|fragments: Seq<Self::Yield>| drives(*old(self), fragments, ret, *final(self)),
    ;

    /// Resumes the generator until it emits a fragment or fails, and hands
    /// that out. A resumption that completes with a success is passed over;
    /// after `limit` of them it gives up, with `None`.
    fn try_next_yielded(&mut self, rng: &mut rand::rngs::StdRng, limit: usize) -> (out: Option<
        Result<Self::Yield, Self::Error>,
    >)
        requires
            old(self).inv(),
        ensures
            final(self).inv(),
            passes_over(*old(self), *final(self), limit as nat, out),
    ;
}

/// Whether one resumption may lead from `before` to `after` by completing with
/// a success.
pub open spec fn succeeds<G>(before: G, after: G) -> bool where
    G: Generator,
    G::Return: GeneratorResult,
 {
    exists|ret: G::Return|
        {
            &&& #[trigger] before.resumes(&after, GeneratorState::Complete(ret))
            &&& ret.result() is Ok
        }
}

/// Whether each state of `states` leads to the next by a resumption that
/// completes with a success.
pub open spec fn successes<G>(states: Seq<G>) -> bool where G: Generator, G::Return: GeneratorResult {
    &&& states.len() >= 1
    &&& forall|i: int| 0 <= i < states.len() - 1 ==> succeeds(#[trigger] states[i], states[i + 1])
}

/// What [`TryGenerator::try_next_yielded`] may do: after some resumptions that
/// complete with a success, at most `limit` of them, the next one emits the
/// fragment or completes with the failure that is handed out; or there were
/// `limit` of them and nothing is handed out.
pub open spec fn passes_over<G>(
    before: G,
    after: G,
    limit: nat,
    out: Option<Result<G::Yield, <G::Return as GeneratorResult>::Err>>,
) -> bool where G: Generator, G::Return: GeneratorResult {
    exists|states: Seq<G>|
        {
            &&& #[trigger] successes(states)
            &&& states[0] == before
            &&& states.len() - 1 <= limit
            &&& match out {
                None => states.len() - 1 == limit && after == states.last(),
                Some(Ok(y)) => states.last().resumes(&after, GeneratorState::Yielded(y)),
                Some(Err(e)) => exists|ret: G::Return|
                    {
                        &&& #[trigger] states.last().resumes(&after, GeneratorState::Complete(ret))
                        &&& ret.result() == Err::<
                            <G::Return as GeneratorResult>::Ok,
                            <G::Return as GeneratorResult>::Err,
                        >(e)
                    },
            }
        }
}

impl<G> TryGenerator for G where G: Generator, G::Return: GeneratorResult {
    type Ok = <G::Return as GeneratorResult>::Ok;

    type Error = <G::Return as GeneratorResult>::Err;

    fn try_next(&mut self, rng: &mut rand::rngs::StdRng) -> (out: GeneratorState<
        Self::Yield,
        Self::Return,
    >) {
        self.next(rng)
    }

    fn try_complete(&mut self, rng: &mut rand::rngs::StdRng) -> (ret: Self::Return) where
        Self: Finite,
     {
        let ghost mut states: Seq<G> = seq![*self];
        let ghost mut fragments: Seq<G::Yield> = Seq::empty();
        loop
            invariant
                self.inv(),
                chain(states, fragments),
                states[0] == *old(self),
                states.last() == *self,
            decreases self.pending(),
        {
            let ghost before = *self;
            match self.next(rng) {
                GeneratorState::Yielded(y) => {
                    proof {
                        before.lemma_fragment_uses_pending(&*self, y);
                        states = states.push(*self);
                        fragments = fragments.push(y);
                    }
                },
                GeneratorState::Complete(ret) => {
                    assert(drives(*old(self), fragments, ret, *self));
                    return ret;
                },
            }
        }
    }

    fn try_next_yielded(&mut self, rng: &mut rand::rngs::StdRng, limit: usize) -> (out: Option<
        Result<Self::Yield, Self::Error>,
    >) {
        let ghost mut states: Seq<G> = seq![*self];
        let mut passed: usize = 0;
        while passed < limit
            invariant
                self.inv(),
                successes(states),
                states[0] == *old(self),
                states.last() == *self,
                states.len() - 1 == passed,
                passed <= limit,
            decreases limit - passed,
        {
            let ghost before = *self;
            match self.next(rng) {
                GeneratorState::Yielded(y) => {
                    return Some(Ok(y));
                },
                GeneratorState::Complete(ret) => {
                    let ghost whole = ret;
                    match ret.into_result() {
                        Err(e) => {
                            assert(before.resumes(&*self, GeneratorState::Complete(whole)));
                            return Some(Err(e));
                        },
                        Ok(_) => {
                            proof {
                                assert(before.resumes(&*self, GeneratorState::Complete(whole)));
                                assert(succeeds(before, *self));
                                states = states.push(*self);
                            }
                            passed = passed + 1;
                        },
                    }
                },
            }
        }
        None
    }
}

/// Transforms the payload of a success; fragments and failures pass unchanged.
pub struct MapOk<TG, F, O> {
    pub inner: TG,
    pub closure: F,
    pub _output: PhantomData<O>,
}

impl<TG, F, O> MapOk<TG, F, O> where
    TG: Generator,
    TG::Return: GeneratorResult,
    F: Fn(<TG::Return as GeneratorResult>::Ok) -> O,
 {
    /// The outcome that the combinator makes of the outcome `inner_out` of the
    /// wrapped generator.
    pub open spec fn maps(
        closure: F,
        inner_out: GeneratorState<TG::Yield, TG::Return>,
        out: GeneratorState<TG::Yield, Result<O, <TG::Return as GeneratorResult>::Err>>,
    ) -> bool {
        match inner_out {
            GeneratorState::Yielded(y) => out == GeneratorState::<
                TG::Yield,
                Result<O, <TG::Return as GeneratorResult>::Err>,
            >::Yielded(y),
            GeneratorState::Complete(c) => match c.result() {
                Err(e) => out == GeneratorState::<
                    TG::Yield,
                    Result<O, <TG::Return as GeneratorResult>::Err>,
                >::Complete(Err(e)),
                Ok(v) => match out {
                    GeneratorState::Complete(Ok(mapped)) => call_ensures(closure, (v,), mapped),
                    _ => false,
                },
            },
        }
    }
}

impl<TG, F, O> Generator for MapOk<TG, F, O> where
    TG: Generator,
    TG::Return: GeneratorResult,
    F: Fn(<TG::Return as GeneratorResult>::Ok) -> O,
 {
    type Yield = TG::Yield;

    type Return = Result<O, <TG::Return as GeneratorResult>::Err>;

    open spec fn inv(&self) -> bool {
        &&& self.inner.inv()
        &&& forall|v: <TG::Return as GeneratorResult>::Ok| call_requires(self.closure, (v,))
    }

    open spec fn resumes(
        &self,
        after: &Self,
        out: GeneratorState<Self::Yield, Self::Return>,
    ) -> bool {
        &&& after.closure == self.closure
        &&& exists|inner_out: GeneratorState<TG::Yield, TG::Return>|
            {
                &&& #[trigger] self.inner.resumes(&after.inner, inner_out)
                &&& Self::maps(self.closure, inner_out, out)
            }
    }

    proof fn lemma_resumption_keeps_inv(
        &self,
        after: &Self,
        out: GeneratorState<Self::Yield, Self::Return>,
    ) {
        let inner_out = choose|inner_out: GeneratorState<TG::Yield, TG::Return>|
            {
                &&& #[trigger] self.inner.resumes(&after.inner, inner_out)
                &&& Self::maps(self.closure, inner_out, out)
            };
        self.inner.lemma_resumption_keeps_inv(&after.inner, inner_out);
    }

    fn next(&mut self, rng: &mut rand::rngs::StdRng) -> (out: GeneratorState<
        Self::Yield,
        Self::Return,
    >) {
        let inner_out = self.inner.next(rng);
        let ghost seen = inner_out;
        let out = match inner_out {
            GeneratorState::Yielded(y) => GeneratorState::Yielded(y),
            GeneratorState::Complete(c) => match c.into_result() {
                Err(e) => GeneratorState::Complete(Err(e)),
                Ok(v) => GeneratorState::Complete(Ok((self.closure)(v))),
            },
        };
        assert(old(self).inner.resumes(&self.inner, seen) && Self::maps(self.closure, seen, out));
        out
    }
}

impl<TG, F, O> Finite for MapOk<TG, F, O> where
    TG: Finite,
    TG::Return: GeneratorResult,
    F: Fn(<TG::Return as GeneratorResult>::Ok) -> O,
 {
    open spec fn limit() -> nat {
        TG::limit()
    }

    open spec fn pending(&self) -> nat {
        self.inner.pending()
    }

    proof fn lemma_pending_within_limit(&self) {
        self.inner.lemma_pending_within_limit();
    }

    proof fn lemma_fragment_uses_pending(&self, after: &Self, fragment: Self::Yield) {
        if self.resumes(after, GeneratorState::Yielded(fragment)) {
            let inner_out = choose|inner_out: GeneratorState<TG::Yield, TG::Return>|
                {
                    &&& #[trigger] self.inner.resumes(&after.inner, inner_out)
                    &&& Self::maps(self.closure, inner_out, GeneratorState::Yielded(fragment))
                };
            self.inner.lemma_fragment_uses_pending(&after.inner, fragment);
        }
    }
}

/// A generator whose fragments are successes or failures.
pub trait FallibleGenerator {
    /// The payload of a successful fragment.
    type Ok;

    /// The payload of a failed fragment.
    type Error;

    /// The fragments that the generator emits.
    type Yield: GeneratorResult<Ok = Self::Ok, Err = Self::Error>;

    /// The payload that ends a drive.
    type Return;
}

impl<G> FallibleGenerator for G where G: Generator, G::Yield: GeneratorResult {
    type Ok = <G::Yield as GeneratorResult>::Ok;

    type Error = <G::Yield as GeneratorResult>::Err;

    type Yield = G::Yield;

    type Return = G::Return;
}

/// The constructor of [`Unwrap`], on every generator whose fragments are
/// successes or failures.
pub trait FallibleGeneratorExt: Generator where Self::Yield: GeneratorResult {
    /// Ends the drive with the first failed fragment.
    fn unwrap(self) -> (unwrapped: Unwrap<Self>)
        ensures
            unwrapped.inner == self,
    {
        Unwrap { inner: self }
    }
}

impl<G> FallibleGeneratorExt for G where G: Generator, G::Yield: GeneratorResult {
}

/// Emits the successful fragments of the wrapped generator and ends the drive
/// with its first failed fragment.
pub struct Unwrap<G> {
    pub inner: G,
}

impl<G> Unwrap<G> where G: Generator, G::Yield: GeneratorResult {
    /// The outcome that the combinator makes of the outcome `inner_out` of the
    /// wrapped generator.
    pub open spec fn unwraps(inner_out: GeneratorState<G::Yield, G::Return>) -> GeneratorState<
        <G::Yield as GeneratorResult>::Ok,
        Result<G::Return, <G::Yield as GeneratorResult>::Err>,
    > {
        match inner_out {
            GeneratorState::Yielded(y) => match y.result() {
                Ok(v) => GeneratorState::Yielded(v),
                Err(e) => GeneratorState::Complete(Err(e)),
            },
            GeneratorState::Complete(c) => GeneratorState::Complete(Ok(c)),
        }
    }
}

impl<G> Generator for Unwrap<G> where G: Generator, G::Yield: GeneratorResult {
    type Yield = <G::Yield as GeneratorResult>::Ok;

    type Return = Result<G::Return, <G::Yield as GeneratorResult>::Err>;

    open spec fn inv(&self) -> bool {
        self.inner.inv()
    }

    open spec fn resumes(
        &self,
        after: &Self,
        out: GeneratorState<Self::Yield, Self::Return>,
    ) -> bool {
        exists|inner_out: GeneratorState<G::Yield, G::Return>|
            {
                &&& #[trigger] self.inner.resumes(&after.inner, inner_out)
                &&& out == Self::unwraps(inner_out)
            }
    }

    proof fn lemma_resumption_keeps_inv(
        &self,
        after: &Self,
        out: GeneratorState<Self::Yield, Self::Return>,
    ) {
        let inner_out = choose|inner_out: GeneratorState<G::Yield, G::Return>|
            {
                &&& #[trigger] self.inner.resumes(&after.inner, inner_out)
                &&& out == Self::unwraps(inner_out)
            };
        self.inner.lemma_resumption_keeps_inv(&after.inner, inner_out);
    }

    fn next(&mut self, rng: &mut rand::rngs::StdRng) -> (out: GeneratorState<
        Self::Yield,
        Self::Return,
    >) {
        let inner_out = self.inner.next(rng);
        let ghost seen = inner_out;
        let out = match inner_out {
            GeneratorState::Yielded(y) => match y.into_result() {
                Ok(v) => GeneratorState::Yielded(v),
                Err(e) => GeneratorState::Complete(Err(e)),
            },
            GeneratorState::Complete(c) => GeneratorState::Complete(Ok(c)),
        };
        assert(old(self).inner.resumes(&self.inner, seen) && out == Self::unwraps(seen));
        out
    }
}

impl<G> Finite for Unwrap<G> where G: Finite, G::Yield: GeneratorResult {
    open spec fn limit() -> nat {
        G::limit()
    }

    open spec fn pending(&self) -> nat {
        self.inner.pending()
    }

    proof fn lemma_pending_within_limit(&self) {
        self.inner.lemma_pending_within_limit();
    }

    proof fn lemma_fragment_uses_pending(&self, after: &Self, fragment: Self::Yield) {
        if self.resumes(after, GeneratorState::Yielded(fragment)) {
            let inner_out = choose|inner_out: GeneratorState<G::Yield, G::Return>|
                {
                    &&& #[trigger] self.inner.resumes(&after.inner, inner_out)
                    &&& GeneratorState::<Self::Yield, Self::Return>::Yielded(fragment)
                        == Self::unwraps(inner_out)
                };
            self.inner.lemma_fragment_uses_pending(&after.inner, inner_out->Yielded_0);
        }
    }
}

/// Drains the wrapped generator: drives it to the end of its drive, drops its
/// fragments, emits the payload of its success as the one fragment and then
/// completes with that payload. A failure completes at once.
pub struct TryOnce<G> where G: Generator, G::Return: GeneratorResult {
    pub inner: G,
    pub output: Option<<G::Return as GeneratorResult>::Ok>,
}

impl<G> Generator for TryOnce<G> where
    G: Finite,
    G::Return: GeneratorResult,
    <G::Return as GeneratorResult>::Ok: Clone,
 {
    type Yield = <G::Return as GeneratorResult>::Ok;

    type Return = Result<<G::Return as GeneratorResult>::Ok, <G::Return as GeneratorResult>::Err>;

    open spec fn inv(&self) -> bool {
        self.inner.inv()
    }

    open spec fn resumes(
        &self,
        after: &Self,
        out: GeneratorState<Self::Yield, Self::Return>,
    ) -> bool {
        match self.output {
            Some(held) => {
                &&& out == GeneratorState::<Self::Yield, Self::Return>::Complete(Ok(held))
                &&& after.output is None
                &&& after.inner == self.inner
            },
            None => exists|fragments: Seq<G::Yield>, ret: G::Return|
                {
                    &&& #[trigger] drives(self.inner, fragments, ret, after.inner)
                    &&& match ret.result() {
                        Ok(v) => {
                            &&& out == GeneratorState::<Self::Yield, Self::Return>::Yielded(v)
                            &&& after.output matches Some(kept)
                            &&& cloned(v, kept)
                        },
                        Err(e) => {
                            &&& out == GeneratorState::<Self::Yield, Self::Return>::Complete(Err(e))
                            &&& after.output is None
                        },
                    }
                },
        }
    }

    proof fn lemma_resumption_keeps_inv(
        &self,
        after: &Self,
        out: GeneratorState<Self::Yield, Self::Return>,
    ) {
        if self.output is None {
            let (fragments, ret) = choose|fragments: Seq<G::Yield>, ret: G::Return|
                #[trigger] drives(self.inner, fragments, ret, after.inner);
            lemma_drive_keeps_inv(self.inner, fragments, ret, after.inner);
        }
    }

    fn next(&mut self, rng: &mut rand::rngs::StdRng) -> (out: GeneratorState<
        Self::Yield,
        Self::Return,
    >) {
        match self.output.take() {
            Some(held) => GeneratorState::Complete(Ok(held)),
            None => {
                let ghost start = self.inner;
                let ret = self.inner.try_complete(rng);
                let ghost whole = ret;
                let ghost fragments = choose|fragments: Seq<G::Yield>|
                    drives(start, fragments, whole, self.inner);
                match ret.into_result() {
                    Ok(v) => {
                        self.output = Some(v.clone());
                        assert(drives(start, fragments, whole, self.inner));
                        GeneratorState::Yielded(v)
                    },
                    Err(e) => {
                        assert(drives(start, fragments, whole, self.inner));
                        GeneratorState::Complete(Err(e))
                    },
                }
            },
        }
    }
}

impl<G> Finite for TryOnce<G> where
    G: Finite,
    G::Return: GeneratorResult,
    <G::Return as GeneratorResult>::Ok: Clone,
 {
    open spec fn limit() -> nat {
        1
    }

    open spec fn pending(&self) -> nat {
        if self.output is None {
            1
        } else {
            0
        }
    }

    proof fn lemma_pending_within_limit(&self) {
    }

    proof fn lemma_fragment_uses_pending(&self, after: &Self, fragment: Self::Yield) {
    }
}

/// Replays the success of the wrapped generator: drives it to the end of its
/// drive, emits the payload of its success once as a fragment, and then completes
/// with that success. A failure completes at once.
pub struct TryYield<G> where G: Generator, G::Return: GeneratorResult {
    pub inner: G,
    pub yielded: Option<<G::Return as GeneratorResult>::Ok>,
}

impl<G> Generator for TryYield<G> where
    G: Finite,
    G::Return: GeneratorResult,
    <G::Return as GeneratorResult>::Ok: Clone,
 {
    type Yield = <G::Return as GeneratorResult>::Ok;

    type Return = G::Return;

    open spec fn inv(&self) -> bool {
        self.inner.inv()
    }

    open spec fn resumes(
        &self,
        after: &Self,
        out: GeneratorState<Self::Yield, Self::Return>,
    ) -> bool {
        match self.yielded {
            Some(held) => {
                &&& out matches GeneratorState::Complete(r)
                &&& r.result() == Ok::<
                    <G::Return as GeneratorResult>::Ok,
                    <G::Return as GeneratorResult>::Err,
                >(held)
                &&& after.yielded is None
                &&& after.inner == self.inner
            },
            None => exists|fragments: Seq<G::Yield>, ret: G::Return|
                {
                    &&& #[trigger] drives(self.inner, fragments, ret, after.inner)
                    &&& match ret.result() {
                        Ok(v) => {
                            &&& out == GeneratorState::<Self::Yield, Self::Return>::Yielded(v)
                            &&& after.yielded matches Some(kept)
                            &&& cloned(v, kept)
                        },
                        Err(e) => {
                            &&& out == GeneratorState::<Self::Yield, Self::Return>::Complete(ret)
                            &&& after.yielded is None
                        },
                    }
                },
        }
    }

    proof fn lemma_resumption_keeps_inv(
        &self,
        after: &Self,
        out: GeneratorState<Self::Yield, Self::Return>,
    ) {
        if self.yielded is None {
            let (fragments, ret) = choose|fragments: Seq<G::Yield>, ret: G::Return|
                #[trigger] drives(self.inner, fragments, ret, after.inner);
            lemma_drive_keeps_inv(self.inner, fragments, ret, after.inner);
        }
    }

    fn next(&mut self, rng: &mut rand::rngs::StdRng) -> (out: GeneratorState<
        Self::Yield,
        Self::Return,
    >) {
        match self.yielded.take() {
            Some(held) => GeneratorState::Complete(G::Return::from_ok(held)),
            None => {
                let ghost start = self.inner;
                let ret = self.inner.try_complete(rng);
                let ghost whole = ret;
                let ghost fragments = choose|fragments: Seq<G::Yield>|
                    drives(start, fragments, whole, self.inner);
                match ret.into_result() {
                    Ok(v) => {
                        self.yielded = Some(v.clone());
                        assert(drives(start, fragments, whole, self.inner));
                        GeneratorState::Yielded(v)
                    },
                    Err(e) => {
                        let failed = G::Return::from_err(e);
                        proof {
                            failed.lemma_result_is_injective(whole);
                        }
                        assert(drives(start, fragments, whole, self.inner));
                        GeneratorState::Complete(failed)
                    },
                }
            },
        }
    }
}

impl<G> Finite for TryYield<G> where
    G: Finite,
    G::Return: GeneratorResult,
    <G::Return as GeneratorResult>::Ok: Clone,
 {
    open spec fn limit() -> nat {
        1
    }

    open spec fn pending(&self) -> nat {
        if self.yielded is None {
            1
        } else {
            0
        }
    }

    proof fn lemma_pending_within_limit(&self) {
    }

    proof fn lemma_fragment_uses_pending(&self, after: &Self, fragment: Self::Yield) {
    }
}

/// Collects the fragments of the wrapped generator: drives it to the end of its
/// drive, emits all its fragments as one batch, in their order, and then
/// completes with the final payload of that drive, success or failure.
pub struct TryAggregate<TG> where TG: Generator, TG::Return: GeneratorResult {
    pub inner: TG,
    pub output: Option<TG::Return>,
}

impl<TG> Generator for TryAggregate<TG> where TG: Finite, TG::Return: GeneratorResult {
    type Yield = Vec<TG::Yield>;

    type Return = TG::Return;

    open spec fn inv(&self) -> bool {
        self.inner.inv()
    }

    open spec fn resumes(
        &self,
        after: &Self,
        out: GeneratorState<Self::Yield, Self::Return>,
    ) -> bool {
        match self.output {
            Some(held) => {
                &&& out == GeneratorState::<Self::Yield, Self::Return>::Complete(held)
                &&& after.output is None
                &&& after.inner == self.inner
            },
            None => exists|fragments: Seq<TG::Yield>, ret: TG::Return|
                {
                    &&& #[trigger] drives(self.inner, fragments, ret, after.inner)
                    &&& out matches GeneratorState::Yielded(batch)
                    &&& batch@ == fragments
                    &&& after.output == Some(ret)
                },
        }
    }

    proof fn lemma_resumption_keeps_inv(
        &self,
        after: &Self,
        out: GeneratorState<Self::Yield, Self::Return>,
    ) {
        if self.output is None {
            let (fragments, ret) = choose|fragments: Seq<TG::Yield>, ret: TG::Return|
                #[trigger] drives(self.inner, fragments, ret, after.inner);
            lemma_drive_keeps_inv(self.inner, fragments, ret, after.inner);
        }
    }

    fn next(&mut self, rng: &mut rand::rngs::StdRng) -> (out: GeneratorState<
        Self::Yield,
        Self::Return,
    >) {
        match self.output.take() {
            Some(held) => GeneratorState::Complete(held),
            None => {
                let ghost start = self.inner;
                let (batch, ret) = drive(&mut self.inner, rng);
                self.output = Some(ret);
                assert(drives(start, batch@, ret, self.inner));
                GeneratorState::Yielded(batch)
            },
        }
    }
}

impl<TG> Finite for TryAggregate<TG> where TG: Finite, TG::Return: GeneratorResult {
    open spec fn limit() -> nat {
        1
    }

    open spec fn pending(&self) -> nat {
        if self.output is None {
            1
        } else {
            0
        }
    }

    proof fn lemma_pending_within_limit(&self) {
    }

    proof fn lemma_fragment_uses_pending(&self, after: &Self, fragment: Self::Yield) {
    }
}

/// Sequences two generators: drives the first, and on its success builds the
/// second from the payload and drives that. The fragments of both are emitted in
/// order; a failure of the first ends the drive before a second is built.
pub struct AndThenTry<TG, F, O> {
    pub inner: TG,
    pub closure: F,
    pub output: Option<O>,
}

impl<TG, F, O> AndThenTry<TG, F, O> where
    TG: Generator,
    TG::Return: GeneratorResult,
    F: Fn(<TG::Return as GeneratorResult>::Ok) -> O,
    O: Generator<Yield = TG::Yield>,
    O::Return: GeneratorResult<Err = <TG::Return as GeneratorResult>::Err>,
 {
    /// Whether the second stage that the closure builds from `payload` may be
    /// resumed once with the outcome `out`, leaving `kept` with the combinator.
    pub open spec fn builds(
        closure: F,
        payload: <TG::Return as GeneratorResult>::Ok,
        out: GeneratorState<TG::Yield, O::Return>,
        kept: Option<O>,
    ) -> bool {
        exists|stage: O, stage_after: O|
            {
                &&& call_ensures(closure, (payload,), stage)
                &&& #[trigger] resumes_stage(stage, stage_after, out, kept)
            }
    }

    /// What the combinator makes of the outcome `inner_out` of the first
    /// generator: a fragment passes, a failure ends the drive, and a success
    /// builds the second stage, which is resumed at once.
    pub open spec fn first_stage(
        closure: F,
        inner_out: GeneratorState<TG::Yield, TG::Return>,
        out: GeneratorState<TG::Yield, O::Return>,
        kept: Option<O>,
    ) -> bool {
        match inner_out {
            GeneratorState::Yielded(y) => {
                &&& out == GeneratorState::<TG::Yield, O::Return>::Yielded(y)
                &&& kept is None
            },
            GeneratorState::Complete(c) => match c.result() {
                Err(same) => {
                    &&& out matches GeneratorState::Complete(r)
                    &&& r.result() == Err::<
                        <O::Return as GeneratorResult>::Ok,
                        <O::Return as GeneratorResult>::Err,
                    >(same)
                    &&& kept is None
                },
                Ok(payload) => Self::builds(closure, payload, out, kept),
            },
        }
    }
}

impl<TG, F, O> Generator for AndThenTry<TG, F, O> where
    TG: Generator,
    TG::Return: GeneratorResult,
    F: Fn(<TG::Return as GeneratorResult>::Ok) -> O,
    O: Generator<Yield = TG::Yield>,
    O::Return: GeneratorResult<Err = <TG::Return as GeneratorResult>::Err>,
 {
    type Yield = TG::Yield;

    type Return = O::Return;

    open spec fn inv(&self) -> bool {
        &&& self.inner.inv()
        &&& self.output matches Some(stage) ==> stage.inv()
        &&& forall|payload: <TG::Return as GeneratorResult>::Ok|
            call_requires(self.closure, (payload,))
        &&& forall|payload: <TG::Return as GeneratorResult>::Ok, stage: O|
            call_ensures(self.closure, (payload,), stage) ==> stage.inv()
    }

    open spec fn resumes(
        &self,
        after: &Self,
        out: GeneratorState<Self::Yield, Self::Return>,
    ) -> bool {
        &&& after.closure == self.closure
        &&& match self.output {
            Some(stage) => {
                &&& after.inner == self.inner
                &&& exists|stage_after: O| #[trigger]
                    resumes_stage(stage, stage_after, out, after.output)
            },
            None => exists|inner_out: GeneratorState<TG::Yield, TG::Return>|
                {
                    &&& #[trigger] self.inner.resumes(&after.inner, inner_out)
                    &&& Self::first_stage(self.closure, inner_out, out, after.output)
                },
        }
    }

    proof fn lemma_resumption_keeps_inv(
        &self,
        after: &Self,
        out: GeneratorState<Self::Yield, Self::Return>,
    ) {
        match self.output {
            Some(stage) => {
                let stage_after = choose|stage_after: O| #[trigger]
                    resumes_stage(stage, stage_after, out, after.output);
                stage.lemma_resumption_keeps_inv(&stage_after, out);
            },
            None => {
                let inner_out = choose|inner_out: GeneratorState<TG::Yield, TG::Return>|
                    {
                        &&& #[trigger] self.inner.resumes(&after.inner, inner_out)
                        &&& Self::first_stage(self.closure, inner_out, out, after.output)
                    };
                self.inner.lemma_resumption_keeps_inv(&after.inner, inner_out);
                if let GeneratorState::Complete(c) = inner_out {
                    if let Ok(payload) = c.result() {
                        let (stage, stage_after) = choose|stage: O, stage_after: O|
                            {
                                &&& call_ensures(self.closure, (payload,), stage)
                                &&& #[trigger] resumes_stage(stage, stage_after, out, after.output)
                            };
                        stage.lemma_resumption_keeps_inv(&stage_after, out);
                    }
                }
            },
        }
    }

    fn next(&mut self, rng: &mut rand::rngs::StdRng) -> (out: GeneratorState<
        Self::Yield,
        Self::Return,
    >) {
        match self.output.take() {
            Some(stage) => {
                let mut stage = stage;
                let ghost stage_before = stage;
                let out = stage.next(rng);
                let ghost stage_after = stage;
                if !out.is_complete() {
                    self.output = Some(stage);
                }
                assert(resumes_stage(stage_before, stage_after, out, self.output));
                out
            },
            None => {
                let inner_out = self.inner.next(rng);
                let ghost seen = inner_out;
                match inner_out {
                    GeneratorState::Yielded(y) => {
                        let out = GeneratorState::Yielded(y);
                        assert(Self::first_stage(self.closure, seen, out, self.output));
                        out
                    },
                    GeneratorState::Complete(c) => match c.into_result() {
                        Err(same) => {
                            let out = GeneratorState::Complete(O::Return::from_err(same));
                            assert(Self::first_stage(self.closure, seen, out, self.output));
                            out
                        },
                        Ok(payload) => {
                            let mut stage = (self.closure)(payload);
                            let ghost stage_before = stage;
                            let out = stage.next(rng);
                            let ghost stage_after = stage;
                            if !out.is_complete() {
                                self.output = Some(stage);
                            }
                            assert(resumes_stage(stage_before, stage_after, out, self.output));
                            assert(Self::builds(self.closure, payload, out, self.output));
                            assert(Self::first_stage(self.closure, seen, out, self.output));
                            out
                        },
                    },
                }
            },
        }
    }
}

impl<TG, F, O> Finite for AndThenTry<TG, F, O> where
    TG: Finite,
    TG::Return: GeneratorResult,
    F: Fn(<TG::Return as GeneratorResult>::Ok) -> O,
    O: Finite<Yield = TG::Yield>,
    O::Return: GeneratorResult<Err = <TG::Return as GeneratorResult>::Err>,
 {
    open spec fn limit() -> nat {
        TG::limit() + O::limit() + 1
    }

    open spec fn pending(&self) -> nat {
        match self.output {
            Some(stage) => stage.pending(),
            None => self.inner.pending() + O::limit() + 1,
        }
    }

    proof fn lemma_pending_within_limit(&self) {
        self.inner.lemma_pending_within_limit();
        if let Some(stage) = self.output {
            stage.lemma_pending_within_limit();
        }
    }

    proof fn lemma_fragment_uses_pending(&self, after: &Self, fragment: Self::Yield) {
        if self.resumes(after, GeneratorState::Yielded(fragment)) {
            let out = GeneratorState::<Self::Yield, Self::Return>::Yielded(fragment);
            match self.output {
                Some(stage) => {
                    let stage_after = choose|stage_after: O| #[trigger]
                        resumes_stage(stage, stage_after, out, after.output);
                    stage.lemma_fragment_uses_pending(&stage_after, fragment);
                },
                None => {
                    let inner_out = choose|inner_out: GeneratorState<TG::Yield, TG::Return>|
                        {
                            &&& #[trigger] self.inner.resumes(&after.inner, inner_out)
                            &&& Self::first_stage(self.closure, inner_out, out, after.output)
                        };
                    match inner_out {
                        GeneratorState::Yielded(y) => {
                            self.inner.lemma_fragment_uses_pending(&after.inner, fragment);
                        },
                        GeneratorState::Complete(c) => {
                            let payload = c.result()->Ok_0;
                            let (stage, stage_after) = choose|stage: O, stage_after: O|
                                {
                                    &&& call_ensures(self.closure, (payload,), stage)
                                    &&& #[trigger] resumes_stage(stage, stage_after, out, after.output)
                                };
                            stage.lemma_pending_within_limit();
                            stage.lemma_fragment_uses_pending(&stage_after, fragment);
                        },
                    }
                },
            }
        }
    }
}

impl<TG, F, O> AndThenTry<TG, F, O> where
    TG: Generator,
    TG::Return: GeneratorResult,
    F: Fn(<TG::Return as GeneratorResult>::Ok) -> O,
    O: Generator<Yield = TG::Yield>,
    O::Return: GeneratorResult<Err = <TG::Return as GeneratorResult>::Err>,
 {
    /// Whether the steps of a drive that emitted `fragments` were all steps of
    /// the first generator, through `firsts`.
    pub open spec fn in_first_stage(
        start: Self,
        now: Self,
        fragments: Seq<TG::Yield>,
        firsts: Seq<TG>,
    ) -> bool {
        &&& now.output is None
        &&& now.closure == start.closure
        &&& chain(firsts, fragments)
        &&& firsts[0] == start.inner
        &&& firsts.last() == now.inner
    }

    /// Whether the steps of a drive that emitted `fragments` were first a whole
    /// drive of the first generator, through `firsts` and with the final
    /// payload `first`, which emitted the first `split` of the fragments, and
    /// then steps of the second stage that the closure built, through `stages`.
    pub open spec fn in_second_stage(
        start: Self,
        now: Self,
        fragments: Seq<TG::Yield>,
        firsts: Seq<TG>,
        split: int,
        first: TG::Return,
        stages: Seq<O>,
    ) -> bool {
        &&& now.output == Some(stages.last())
        &&& now.closure == start.closure
        &&& 0 <= split <= fragments.len()
        &&& chain(firsts, fragments.take(split))
        &&& firsts[0] == start.inner
        &&& firsts.last().resumes(&now.inner, GeneratorState::Complete(first))
        &&& first.result() matches Ok(payload)
        &&& call_ensures(start.closure, (payload,), stages[0])
        &&& chain(stages, fragments.skip(split))
    }

    /// One more step of a drive that is in its second stage already.
    proof fn lemma_second_stage_goes_on(
        start: Self,
        now: Self,
        after: Self,
        fragments: Seq<TG::Yield>,
        fragment: TG::Yield,
        firsts: Seq<TG>,
        split: int,
        first: TG::Return,
        stages: Seq<O>,
    )
        requires
            Self::in_second_stage(start, now, fragments, firsts, split, first, stages),
            now.resumes(&after, GeneratorState::Yielded(fragment)),
        ensures
            Self::in_second_stage(
                start,
                after,
                fragments.push(fragment),
                firsts,
                split,
                first,
                stages.push(after.output->Some_0),
            ),
    {
        let out = GeneratorState::<TG::Yield, O::Return>::Yielded(fragment);
        let stage_after = choose|stage_after: O| #[trigger]
            resumes_stage(stages.last(), stage_after, out, after.output);
        let longer = fragments.push(fragment);
        assert(fragments.skip(split).push(fragment) =~= longer.skip(split));
        assert(longer.take(split) =~= fragments.take(split));
        let further = stages.push(stage_after);
        assert forall|i: int| 0 <= i < longer.skip(split).len() implies (
        #[trigger] further[i]).resumes(
            &further[i + 1],
            GeneratorState::Yielded(longer.skip(split)[i]),
        ) by {
            if i < fragments.skip(split).len() {
                assert(stages[i].resumes(
                    &stages[i + 1],
                    GeneratorState::Yielded(fragments.skip(split)[i]),
                ));
            }
        }
    }

    /// One more step of a drive that is still in its first stage: the first
    /// generator emits a fragment, or it completes and the second stage emits
    /// its first fragment.
    proof fn lemma_first_stage_goes_on(
        start: Self,
        now: Self,
        after: Self,
        fragments: Seq<TG::Yield>,
        fragment: TG::Yield,
        firsts: Seq<TG>,
    ) -> (so_far: (Seq<TG>, int, TG::Return, Seq<O>))
        requires
            Self::in_first_stage(start, now, fragments, firsts),
            now.resumes(&after, GeneratorState::Yielded(fragment)),
        ensures
            Self::in_first_stage(start, after, fragments.push(fragment), so_far.0)
                || Self::in_second_stage(
                start,
                after,
                fragments.push(fragment),
                so_far.0,
                so_far.1,
                so_far.2,
                so_far.3,
            ),
    {
        let out = GeneratorState::<TG::Yield, O::Return>::Yielded(fragment);
        let longer = fragments.push(fragment);
        let inner_out = choose|inner_out: GeneratorState<TG::Yield, TG::Return>|
            {
                &&& #[trigger] now.inner.resumes(&after.inner, inner_out)
                &&& Self::first_stage(now.closure, inner_out, out, after.output)
            };
        match inner_out {
            GeneratorState::Yielded(y) => {
                let further = firsts.push(after.inner);
                assert forall|i: int| 0 <= i < longer.len() implies (
                #[trigger] further[i]).resumes(
                    &further[i + 1],
                    GeneratorState::Yielded(longer[i]),
                ) by {
                    if i < fragments.len() {
                        assert(firsts[i].resumes(
                            &firsts[i + 1],
                            GeneratorState::Yielded(fragments[i]),
                        ));
                    }
                }
                (further, 0, arbitrary(), Seq::empty())
            },
            GeneratorState::Complete(first) => {
                let payload = first.result()->Ok_0;
                let (stage, stage_after) = choose|stage: O, stage_after: O|
                    {
                        &&& call_ensures(now.closure, (payload,), stage)
                        &&& #[trigger] resumes_stage(stage, stage_after, out, after.output)
                    };
                let stages = seq![stage, stage_after];
                let split = fragments.len() as int;
                assert(longer.take(split) =~= fragments);
                assert(longer.skip(split) =~= seq![fragment]);
                (firsts, split, first, stages)
            },
        }
    }

    /// The steps of the two stages that go with the first `upto` steps of a
    /// drive of the combinator.
    proof fn lemma_stages_follow_drive(
        states: Seq<Self>,
        fragments: Seq<TG::Yield>,
        upto: int,
    ) -> (so_far: (Seq<TG>, int, TG::Return, Seq<O>))
        requires
            chain(states, fragments),
            states[0].output is None,
            0 <= upto <= fragments.len(),
        ensures
            Self::in_first_stage(states[0], states[upto], fragments.take(upto), so_far.0)
                || Self::in_second_stage(
                states[0],
                states[upto],
                fragments.take(upto),
                so_far.0,
                so_far.1,
                so_far.2,
                so_far.3,
            ),
        decreases upto,
    {
        if upto == 0 {
            assert(fragments.take(0) =~= Seq::<TG::Yield>::empty());
            (seq![states[0].inner], 0, arbitrary(), Seq::empty())
        } else {
            let before = Self::lemma_stages_follow_drive(states, fragments, upto - 1);
            let fragment = fragments[upto - 1];
            assert(fragments.take(upto - 1).push(fragment) =~= fragments.take(upto));
            assert(states[upto - 1].resumes(&states[upto], GeneratorState::Yielded(fragment)));
            if states[upto - 1].output is Some {
                Self::lemma_second_stage_goes_on(
                    states[0],
                    states[upto - 1],
                    states[upto],
                    fragments.take(upto - 1),
                    fragment,
                    before.0,
                    before.1,
                    before.2,
                    before.3,
                );
                (before.0, before.1, before.2, before.3.push(states[upto].output->Some_0))
            } else {
                Self::lemma_first_stage_goes_on(
                    states[0],
                    states[upto - 1],
                    states[upto],
                    fragments.take(upto - 1),
                    fragment,
                    before.0,
                )
            }
        }
    }

    /// A drive of the combinator is a drive of the first generator and then,
    /// after a success, a drive of the second.
    ///
    /// Take a combinator between drives, and a drive of it that emits
    /// `fragments` and completes with `ret`. Then the first generator has
    /// made one drive, and the fragments of that drive come first in
    /// `fragments`. If it ended in a failure, nothing follows them and `ret`
    /// is that failure. If it ended in
    /// a success, what follows them are the fragments of one drive of the
    /// stage that the closure built from its payload, and `ret` is the final
    /// payload of that drive.
    pub proof fn lemma_drive_is_two_stages(
        start: Self,
        fragments: Seq<TG::Yield>,
        ret: O::Return,
        end: Self,
    )
        requires
            start.output is None,
            drives(start, fragments, ret, end),
        ensures
            end.output is None,
            exists|split: int, first: TG::Return|
                {
                    &&& 0 <= split <= fragments.len()
                    &&& #[trigger] drives(start.inner, fragments.take(split), first, end.inner)
                    &&& match first.result() {
                        Err(same) => {
                            &&& split == fragments.len()
                            &&& ret.result() == Err::<
                                <O::Return as GeneratorResult>::Ok,
                                <O::Return as GeneratorResult>::Err,
                            >(same)
                        },
                        Ok(payload) => exists|stage: O, stage_end: O|
                            {
                                &&& call_ensures(start.closure, (payload,), stage)
                                &&& #[trigger] drives(stage, fragments.skip(split), ret, stage_end)
                            },
                    }
                },
    {
        let states = choose|states: Seq<Self>|
            {
                &&& #[trigger] chain(states, fragments)
                &&& states[0] == start
                &&& states.last().resumes(&end, GeneratorState::Complete(ret))
            };
        let total = fragments.len() as int;
        let (firsts, split, first, stages) = Self::lemma_stages_follow_drive(
            states,
            fragments,
            total,
        );
        assert(fragments.take(total) =~= fragments);
        let now = states.last();
        let out = GeneratorState::<TG::Yield, O::Return>::Complete(ret);
        match now.output {
            Some(stage) => {
                let stage_end = choose|stage_end: O| #[trigger]
                    resumes_stage(stage, stage_end, out, end.output);
                assert(drives(start.inner, fragments.take(split), first, end.inner));
                assert(drives(stages[0], fragments.skip(split), ret, stage_end));
            },
            None => {
                let inner_out = choose|inner_out: GeneratorState<TG::Yield, TG::Return>|
                    {
                        &&& #[trigger] now.inner.resumes(&end.inner, inner_out)
                        &&& Self::first_stage(now.closure, inner_out, out, end.output)
                    };
                let first = inner_out->Complete_0;
                assert(drives(start.inner, fragments.take(total), first, end.inner));
                if let Ok(payload) = first.result() {
                    let (stage, stage_end) = choose|stage: O, stage_end: O|
                        {
                            &&& call_ensures(now.closure, (payload,), stage)
                            &&& #[trigger] resumes_stage(stage, stage_end, out, end.output)
                        };
                    assert(fragments.skip(total) =~= Seq::<TG::Yield>::empty());
                    assert(chain(seq![stage], fragments.skip(total)));
                    assert(drives(stage, fragments.skip(total), ret, stage_end));
                }
            },
        }
    }
}

/// Recovers from a failure: drives the first generator, and on its failure
/// builds a second from the error and drives that in its place. The fragments
/// of both are emitted in order; a success of the first ends the drive before a
/// second is built.
pub struct OrElseTry<TG, F, O> {
    pub inner: TG,
    pub closure: F,
    pub output: Option<O>,
}

impl<TG, F, O> OrElseTry<TG, F, O> where
    TG: Generator,
    TG::Return: GeneratorResult,
    F: Fn(<TG::Return as GeneratorResult>::Err) -> O,
    O: Generator<Yield = TG::Yield>,
    O::Return: GeneratorResult<Ok = <TG::Return as GeneratorResult>::Ok>,
 {
    /// Whether the second stage that the closure builds from `payload` may be
    /// resumed once with the outcome `out`, leaving `kept` with the combinator.
    pub open spec fn builds(
        closure: F,
        payload: <TG::Return as GeneratorResult>::Err,
        out: GeneratorState<TG::Yield, O::Return>,
        kept: Option<O>,
    ) -> bool {
        exists|stage: O, stage_after: O|
            {
                &&& call_ensures(closure, (payload,), stage)
                &&& #[trigger] resumes_stage(stage, stage_after, out, kept)
            }
    }

    /// What the combinator makes of the outcome `inner_out` of the first
    /// generator: a fragment passes, a success ends the drive, and a failure
    /// builds the second stage, which is resumed at once.
    pub open spec fn first_stage(
        closure: F,
        inner_out: GeneratorState<TG::Yield, TG::Return>,
        out: GeneratorState<TG::Yield, O::Return>,
        kept: Option<O>,
    ) -> bool {
        match inner_out {
            GeneratorState::Yielded(y) => {
                &&& out == GeneratorState::<TG::Yield, O::Return>::Yielded(y)
                &&& kept is None
            },
            GeneratorState::Complete(c) => match c.result() {
                Ok(same) => {
                    &&& out matches GeneratorState::Complete(r)
                    &&& r.result() == Ok::<
                        <O::Return as GeneratorResult>::Ok,
                        <O::Return as GeneratorResult>::Err,
                    >(same)
                    &&& kept is None
                },
                Err(payload) => Self::builds(closure, payload, out, kept),
            },
        }
    }
}

impl<TG, F, O> Generator for OrElseTry<TG, F, O> where
    TG: Generator,
    TG::Return: GeneratorResult,
    F: Fn(<TG::Return as GeneratorResult>::Err) -> O,
    O: Generator<Yield = TG::Yield>,
    O::Return: GeneratorResult<Ok = <TG::Return as GeneratorResult>::Ok>,
 {
    type Yield = TG::Yield;

    type Return = O::Return;

    open spec fn inv(&self) -> bool {
        &&& self.inner.inv()
        &&& self.output matches Some(stage) ==> stage.inv()
        &&& forall|payload: <TG::Return as GeneratorResult>::Err|
            call_requires(self.closure, (payload,))
        &&& forall|payload: <TG::Return as GeneratorResult>::Err, stage: O|
            call_ensures(self.closure, (payload,), stage) ==> stage.inv()
    }

    open spec fn resumes(
        &self,
        after: &Self,
        out: GeneratorState<Self::Yield, Self::Return>,
    ) -> bool {
        &&& after.closure == self.closure
        &&& match self.output {
            Some(stage) => {
                &&& after.inner == self.inner
                &&& exists|stage_after: O| #[trigger]
                    resumes_stage(stage, stage_after, out, after.output)
            },
            None => exists|inner_out: GeneratorState<TG::Yield, TG::Return>|
                {
                    &&& #[trigger] self.inner.resumes(&after.inner, inner_out)
                    &&& Self::first_stage(self.closure, inner_out, out, after.output)
                },
        }
    }

    proof fn lemma_resumption_keeps_inv(
        &self,
        after: &Self,
        out: GeneratorState<Self::Yield, Self::Return>,
    ) {
        match self.output {
            Some(stage) => {
                let stage_after = choose|stage_after: O| #[trigger]
                    resumes_stage(stage, stage_after, out, after.output);
                stage.lemma_resumption_keeps_inv(&stage_after, out);
            },
            None => {
                let inner_out = choose|inner_out: GeneratorState<TG::Yield, TG::Return>|
                    {
                        &&& #[trigger] self.inner.resumes(&after.inner, inner_out)
                        &&& Self::first_stage(self.closure, inner_out, out, after.output)
                    };
                self.inner.lemma_resumption_keeps_inv(&after.inner, inner_out);
                if let GeneratorState::Complete(c) = inner_out {
                    if let Err(payload) = c.result() {
                        let (stage, stage_after) = choose|stage: O, stage_after: O|
                            {
                                &&& call_ensures(self.closure, (payload,), stage)
                                &&& #[trigger] resumes_stage(stage, stage_after, out, after.output)
                            };
                        stage.lemma_resumption_keeps_inv(&stage_after, out);
                    }
                }
            },
        }
    }

    fn next(&mut self, rng: &mut rand::rngs::StdRng) -> (out: GeneratorState<
        Self::Yield,
        Self::Return,
    >) {
        match self.output.take() {
            Some(stage) => {
                let mut stage = stage;
                let ghost stage_before = stage;
                let out = stage.next(rng);
                let ghost stage_after = stage;
                if !out.is_complete() {
                    self.output = Some(stage);
                }
                assert(resumes_stage(stage_before, stage_after, out, self.output));
                out
            },
            None => {
                let inner_out = self.inner.next(rng);
                let ghost seen = inner_out;
                match inner_out {
                    GeneratorState::Yielded(y) => {
                        let out = GeneratorState::Yielded(y);
                        assert(Self::first_stage(self.closure, seen, out, self.output));
                        out
                    },
                    GeneratorState::Complete(c) => match c.into_result() {
                        Ok(same) => {
                            let out = GeneratorState::Complete(O::Return::from_ok(same));
                            assert(Self::first_stage(self.closure, seen, out, self.output));
                            out
                        },
                        Err(payload) => {
                            let mut stage = (self.closure)(payload);
                            let ghost stage_before = stage;
                            let out = stage.next(rng);
                            let ghost stage_after = stage;
                            if !out.is_complete() {
                                self.output = Some(stage);
                            }
                            assert(resumes_stage(stage_before, stage_after, out, self.output));
                            assert(Self::builds(self.closure, payload, out, self.output));
                            assert(Self::first_stage(self.closure, seen, out, self.output));
                            out
                        },
                    },
                }
            },
        }
    }
}

impl<TG, F, O> Finite for OrElseTry<TG, F, O> where
    TG: Finite,
    TG::Return: GeneratorResult,
    F: Fn(<TG::Return as GeneratorResult>::Err) -> O,
    O: Finite<Yield = TG::Yield>,
    O::Return: GeneratorResult<Ok = <TG::Return as GeneratorResult>::Ok>,
 {
    open spec fn limit() -> nat {
        TG::limit() + O::limit() + 1
    }

    open spec fn pending(&self) -> nat {
        match self.output {
            Some(stage) => stage.pending(),
            None => self.inner.pending() + O::limit() + 1,
        }
    }

    proof fn lemma_pending_within_limit(&self) {
        self.inner.lemma_pending_within_limit();
        if let Some(stage) = self.output {
            stage.lemma_pending_within_limit();
        }
    }

    proof fn lemma_fragment_uses_pending(&self, after: &Self, fragment: Self::Yield) {
        if self.resumes(after, GeneratorState::Yielded(fragment)) {
            let out = GeneratorState::<Self::Yield, Self::Return>::Yielded(fragment);
            match self.output {
                Some(stage) => {
                    let stage_after = choose|stage_after: O| #[trigger]
                        resumes_stage(stage, stage_after, out, after.output);
                    stage.lemma_fragment_uses_pending(&stage_after, fragment);
                },
                None => {
                    let inner_out = choose|inner_out: GeneratorState<TG::Yield, TG::Return>|
                        {
                            &&& #[trigger] self.inner.resumes(&after.inner, inner_out)
                            &&& Self::first_stage(self.closure, inner_out, out, after.output)
                        };
                    match inner_out {
                        GeneratorState::Yielded(y) => {
                            self.inner.lemma_fragment_uses_pending(&after.inner, fragment);
                        },
                        GeneratorState::Complete(c) => {
                            let payload = c.result()->Err_0;
                            let (stage, stage_after) = choose|stage: O, stage_after: O|
                                {
                                    &&& call_ensures(self.closure, (payload,), stage)
                                    &&& #[trigger] resumes_stage(stage, stage_after, out, after.output)
                                };
                            stage.lemma_pending_within_limit();
                            stage.lemma_fragment_uses_pending(&stage_after, fragment);
                        },
                    }
                },
            }
        }
    }
}

impl<TG, F, O> OrElseTry<TG, F, O> where
    TG: Generator,
    TG::Return: GeneratorResult,
    F: Fn(<TG::Return as GeneratorResult>::Err) -> O,
    O: Generator<Yield = TG::Yield>,
    O::Return: GeneratorResult<Ok = <TG::Return as GeneratorResult>::Ok>,
 {
    /// Whether the steps of a drive that emitted `fragments` were all steps of
    /// the first generator, through `firsts`.
    pub open spec fn in_first_stage(
        start: Self,
        now: Self,
        fragments: Seq<TG::Yield>,
        firsts: Seq<TG>,
    ) -> bool {
        &&& now.output is None
        &&& now.closure == start.closure
        &&& chain(firsts, fragments)
        &&& firsts[0] == start.inner
        &&& firsts.last() == now.inner
    }

    /// Whether the steps of a drive that emitted `fragments` were first a whole
    /// drive of the first generator, through `firsts` and with the final
    /// payload `first`, which emitted the first `split` of the fragments, and
    /// then steps of the second stage that the closure built, through `stages`.
    pub open spec fn in_second_stage(
        start: Self,
        now: Self,
        fragments: Seq<TG::Yield>,
        firsts: Seq<TG>,
        split: int,
        first: TG::Return,
        stages: Seq<O>,
    ) -> bool {
        &&& now.output == Some(stages.last())
        &&& now.closure == start.closure
        &&& 0 <= split <= fragments.len()
        &&& chain(firsts, fragments.take(split))
        &&& firsts[0] == start.inner
        &&& firsts.last().resumes(&now.inner, GeneratorState::Complete(first))
        &&& first.result() matches Err(payload)
        &&& call_ensures(start.closure, (payload,), stages[0])
        &&& chain(stages, fragments.skip(split))
    }

    /// One more step of a drive that is in its second stage already.
    proof fn lemma_second_stage_goes_on(
        start: Self,
        now: Self,
        after: Self,
        fragments: Seq<TG::Yield>,
        fragment: TG::Yield,
        firsts: Seq<TG>,
        split: int,
        first: TG::Return,
        stages: Seq<O>,
    )
        requires
            Self::in_second_stage(start, now, fragments, firsts, split, first, stages),
            now.resumes(&after, GeneratorState::Yielded(fragment)),
        ensures
            Self::in_second_stage(
                start,
                after,
                fragments.push(fragment),
                firsts,
                split,
                first,
                stages.push(after.output->Some_0),
            ),
    {
        let out = GeneratorState::<TG::Yield, O::Return>::Yielded(fragment);
        let stage_after = choose|stage_after: O| #[trigger]
            resumes_stage(stages.last(), stage_after, out, after.output);
        let longer = fragments.push(fragment);
        assert(fragments.skip(split).push(fragment) =~= longer.skip(split));
        assert(longer.take(split) =~= fragments.take(split));
        let further = stages.push(stage_after);
        assert forall|i: int| 0 <= i < longer.skip(split).len() implies (
        #[trigger] further[i]).resumes(
            &further[i + 1],
            GeneratorState::Yielded(longer.skip(split)[i]),
        ) by {
            if i < fragments.skip(split).len() {
                assert(stages[i].resumes(
                    &stages[i + 1],
                    GeneratorState::Yielded(fragments.skip(split)[i]),
                ));
            }
        }
    }

    /// One more step of a drive that is still in its first stage: the first
    /// generator emits a fragment, or it completes and the second stage emits
    /// its first fragment.
    proof fn lemma_first_stage_goes_on(
        start: Self,
        now: Self,
        after: Self,
        fragments: Seq<TG::Yield>,
        fragment: TG::Yield,
        firsts: Seq<TG>,
    ) -> (so_far: (Seq<TG>, int, TG::Return, Seq<O>))
        requires
            Self::in_first_stage(start, now, fragments, firsts),
            now.resumes(&after, GeneratorState::Yielded(fragment)),
        ensures
            Self::in_first_stage(start, after, fragments.push(fragment), so_far.0)
                || Self::in_second_stage(
                start,
                after,
                fragments.push(fragment),
                so_far.0,
                so_far.1,
                so_far.2,
                so_far.3,
            ),
    {
        let out = GeneratorState::<TG::Yield, O::Return>::Yielded(fragment);
        let longer = fragments.push(fragment);
        let inner_out = choose|inner_out: GeneratorState<TG::Yield, TG::Return>|
            {
                &&& #[trigger] now.inner.resumes(&after.inner, inner_out)
                &&& Self::first_stage(now.closure, inner_out, out, after.output)
            };
        match inner_out {
            GeneratorState::Yielded(y) => {
                let further = firsts.push(after.inner);
                assert forall|i: int| 0 <= i < longer.len() implies (
                #[trigger] further[i]).resumes(
                    &further[i + 1],
                    GeneratorState::Yielded(longer[i]),
                ) by {
                    if i < fragments.len() {
                        assert(firsts[i].resumes(
                            &firsts[i + 1],
                            GeneratorState::Yielded(fragments[i]),
                        ));
                    }
                }
                (further, 0, arbitrary(), Seq::empty())
            },
            GeneratorState::Complete(first) => {
                let payload = first.result()->Err_0;
                let (stage, stage_after) = choose|stage: O, stage_after: O|
                    {
                        &&& call_ensures(now.closure, (payload,), stage)
                        &&& #[trigger] resumes_stage(stage, stage_after, out, after.output)
                    };
                let stages = seq![stage, stage_after];
                let split = fragments.len() as int;
                assert(longer.take(split) =~= fragments);
                assert(longer.skip(split) =~= seq![fragment]);
                (firsts, split, first, stages)
            },
        }
    }

    /// The steps of the two stages that go with the first `upto` steps of a
    /// drive of the combinator.
    proof fn lemma_stages_follow_drive(
        states: Seq<Self>,
        fragments: Seq<TG::Yield>,
        upto: int,
    ) -> (so_far: (Seq<TG>, int, TG::Return, Seq<O>))
        requires
            chain(states, fragments),
            states[0].output is None,
            0 <= upto <= fragments.len(),
        ensures
            Self::in_first_stage(states[0], states[upto], fragments.take(upto), so_far.0)
                || Self::in_second_stage(
                states[0],
                states[upto],
                fragments.take(upto),
                so_far.0,
                so_far.1,
                so_far.2,
                so_far.3,
            ),
        decreases upto,
    {
        if upto == 0 {
            assert(fragments.take(0) =~= Seq::<TG::Yield>::empty());
            (seq![states[0].inner], 0, arbitrary(), Seq::empty())
        } else {
            let before = Self::lemma_stages_follow_drive(states, fragments, upto - 1);
            let fragment = fragments[upto - 1];
            assert(fragments.take(upto - 1).push(fragment) =~= fragments.take(upto));
            assert(states[upto - 1].resumes(&states[upto], GeneratorState::Yielded(fragment)));
            if states[upto - 1].output is Some {
                Self::lemma_second_stage_goes_on(
                    states[0],
                    states[upto - 1],
                    states[upto],
                    fragments.take(upto - 1),
                    fragment,
                    before.0,
                    before.1,
                    before.2,
                    before.3,
                );
                (before.0, before.1, before.2, before.3.push(states[upto].output->Some_0))
            } else {
                Self::lemma_first_stage_goes_on(
                    states[0],
                    states[upto - 1],
                    states[upto],
                    fragments.take(upto - 1),
                    fragment,
                    before.0,
                )
            }
        }
    }

    /// A drive of the combinator is a drive of the first generator and then,
    /// after a failure, a drive of the second.
    ///
    /// Take a combinator between drives, and a drive of it that emits
    /// `fragments` and completes with `ret`. Then the first generator has
    /// made one drive, and the fragments of that drive come first in
    /// `fragments`. If it ended in a success, nothing follows them and `ret`
    /// is that success. If it ended in
    /// a failure, what follows them are the fragments of one drive of the
    /// stage that the closure built from its payload, and `ret` is the final
    /// payload of that drive.
    pub proof fn lemma_drive_is_two_stages(
        start: Self,
        fragments: Seq<TG::Yield>,
        ret: O::Return,
        end: Self,
    )
        requires
            start.output is None,
            drives(start, fragments, ret, end),
        ensures
            end.output is None,
            exists|split: int, first: TG::Return|
                {
                    &&& 0 <= split <= fragments.len()
                    &&& #[trigger] drives(start.inner, fragments.take(split), first, end.inner)
                    &&& match first.result() {
                        Ok(same) => {
                            &&& split == fragments.len()
                            &&& ret.result() == Ok::<
                                <O::Return as GeneratorResult>::Ok,
                                <O::Return as GeneratorResult>::Err,
                            >(same)
                        },
                        Err(payload) => exists|stage: O, stage_end: O|
                            {
                                &&& call_ensures(start.closure, (payload,), stage)
                                &&& #[trigger] drives(stage, fragments.skip(split), ret, stage_end)
                            },
                    }
                },
    {
        let states = choose|states: Seq<Self>|
            {
                &&& #[trigger] chain(states, fragments)
                &&& states[0] == start
                &&& states.last().resumes(&end, GeneratorState::Complete(ret))
            };
        let total = fragments.len() as int;
        let (firsts, split, first, stages) = Self::lemma_stages_follow_drive(
            states,
            fragments,
            total,
        );
        assert(fragments.take(total) =~= fragments);
        let now = states.last();
        let out = GeneratorState::<TG::Yield, O::Return>::Complete(ret);
        match now.output {
            Some(stage) => {
                let stage_end = choose|stage_end: O| #[trigger]
                    resumes_stage(stage, stage_end, out, end.output);
                assert(drives(start.inner, fragments.take(split), first, end.inner));
                assert(drives(stages[0], fragments.skip(split), ret, stage_end));
            },
            None => {
                let inner_out = choose|inner_out: GeneratorState<TG::Yield, TG::Return>|
                    {
                        &&& #[trigger] now.inner.resumes(&end.inner, inner_out)
                        &&& Self::first_stage(now.closure, inner_out, out, end.output)
                    };
                let first = inner_out->Complete_0;
                assert(drives(start.inner, fragments.take(total), first, end.inner));
                if let Err(payload) = first.result() {
                    let (stage, stage_end) = choose|stage: O, stage_end: O|
                        {
                            &&& call_ensures(now.closure, (payload,), stage)
                            &&& #[trigger] resumes_stage(stage, stage_end, out, end.output)
                        };
                    assert(fragments.skip(total) =~= Seq::<TG::Yield>::empty());
                    assert(chain(seq![stage], fragments.skip(total)));
                    assert(drives(stage, fragments.skip(total), ret, stage_end));
                }
            },
        }
    }
}

/// What one attempt of a [`TryFilterMap`] came to.
#[derive(Clone, Copy, Debug, PartialEq, Eq)]
pub enum Attempt<E> {
    /// The closure took the payload: the fragments of the attempt are ready
    /// to be released.
    Accepted,
    /// The closure turned the payload down: the fragments of the attempt are
    /// gone and the wrapped generator is to be driven again.
    Rejected,
    /// The wrapped generator or the closure failed.
    Failed(E),
}

/// Drives the wrapped generator again and again until the closure takes the
/// payload of a success.
///
/// An attempt drives the wrapped generator to the end of one drive and keeps its
/// fragments back. If the closure takes the payload, the fragments that were kept
/// back are released one by one and the drive completes with the closure's
/// value; if it turns the payload down, they are dropped; if the wrapped
/// generator or the closure fails, they are dropped and the failure ends the
/// drive.
///
/// How many attempts it takes is not bounded, so the combinator offers the single
/// attempt ([`Self::attempt`]), the release of what an accepted attempt kept
/// back ([`Self::release`]) and a resumption that gives up after a number of
/// attempts ([`Self::next_within`]); a caller that wants to wait for ever runs
/// the last in a loop.
pub struct TryFilterMap<TG, F, O> where TG: Generator {
    pub inner: TG,
    pub yielded: VecDeque<TG::Yield>,
    pub output: Option<O>,
    pub closure: F,
}

impl<TG, F, O> TryFilterMap<TG, F, O> where
    TG: Finite,
    TG::Return: GeneratorResult,
    F: Fn(<TG::Return as GeneratorResult>::Ok) -> Result<
        Option<O>,
        <TG::Return as GeneratorResult>::Err,
    >,
 {
    /// What holds of the combinator between calls.
    pub open spec fn inv(&self) -> bool {
        &&& self.inner.inv()
        &&& forall|v: <TG::Return as GeneratorResult>::Ok| call_requires(self.closure, (v,))
    }

    /// Nothing is kept back and no value is waiting: the next step is an attempt.
    pub open spec fn idle(&self) -> bool {
        &&& self.yielded@.len() == 0
        &&& self.output is None
    }

    /// What an attempt that emitted `fragments` and completed with `ret` leaves
    /// behind: `buffer` and `output` are what is kept back afterwards.
    pub open spec fn judged(
        closure: F,
        fragments: Seq<TG::Yield>,
        ret: TG::Return,
        buffer: Seq<TG::Yield>,
        output: Option<O>,
        verdict: Attempt<<TG::Return as GeneratorResult>::Err>,
    ) -> bool {
        match ret.result() {
            Err(e) => {
                &&& verdict == Attempt::Failed(e)
                &&& buffer.len() == 0
                &&& output is None
            },
            Ok(v) => exists|answer: Result<Option<O>, <TG::Return as GeneratorResult>::Err>|
                {
                    &&& #[trigger] call_ensures(closure, (v,), answer)
                    &&& match answer {
                        Ok(Some(value)) => {
                            &&& verdict is Accepted
                            &&& buffer == fragments
                            &&& output == Some(value)
                        },
                        Ok(None) => {
                            &&& verdict is Rejected
                            &&& buffer.len() == 0
                            &&& output is None
                        },
                        Err(e) => {
                            &&& verdict == Attempt::Failed(e)
                            &&& buffer.len() == 0
                            &&& output is None
                        },
                    }
                },
        }
    }

    /// Whether one attempt may lead from `self` to `after` with `verdict`.
    pub open spec fn attempts(
        &self,
        after: &Self,
        verdict: Attempt<<TG::Return as GeneratorResult>::Err>,
    ) -> bool {
        &&& after.closure == self.closure
        &&& exists|fragments: Seq<TG::Yield>, ret: TG::Return|
            {
                &&& #[trigger] drives(self.inner, fragments, ret, after.inner)
                &&& Self::judged(
                    self.closure,
                    fragments,
                    ret,
                    after.yielded@,
                    after.output,
                    verdict,
                )
            }
    }

    /// Whether releasing from `self` hands out `out` and leaves `after`: first
    /// the fragments that were kept back, oldest first, then the value.
    pub open spec fn releases(
        &self,
        after: &Self,
        out: Option<GeneratorState<TG::Yield, Result<O, <TG::Return as GeneratorResult>::Err>>>,
    ) -> bool {
        &&& after.inner == self.inner
        &&& after.closure == self.closure
        &&& if self.yielded@.len() > 0 {
            &&& out == Some(
                GeneratorState::<
                    TG::Yield,
                    Result<O, <TG::Return as GeneratorResult>::Err>,
                >::Yielded(self.yielded@[0]),
            )
            &&& after.yielded@ == self.yielded@.skip(1)
            &&& after.output == self.output
        } else {
            &&& after.idle()
            &&& match self.output {
                Some(value) => out == Some(
                    GeneratorState::<
                        TG::Yield,
                        Result<O, <TG::Return as GeneratorResult>::Err>,
                    >::Complete(Ok(value)),
                ),
                None => out is None,
            }
        }
    }

    /// Makes one attempt: drives the wrapped generator to the end of a drive and
    /// lets the closure judge the payload.
    pub fn attempt(&mut self, rng: &mut rand::rngs::StdRng) -> (verdict: Attempt<
        <TG::Return as GeneratorResult>::Err,
    >)
        requires
            old(self).inv(),
            old(self).idle(),
        ensures
            final(self).inv(),
            old(self).attempts(final(self), verdict),
    {
        let ghost mut states: Seq<TG> = seq![self.inner];
        loop
            invariant
                self.inv(),
                self.output is None,
                self.closure == old(self).closure,
                chain(states, self.yielded@),
                states[0] == old(self).inner,
                states.last() == self.inner,
            decreases self.inner.pending(),
        {
            let ghost before = self.inner;
            match self.inner.next(rng) {
                GeneratorState::Yielded(y) => {
                    proof {
                        before.lemma_fragment_uses_pending(&self.inner, y);
                        states = states.push(self.inner);
                    }
                    self.yielded.push_back(y);
                },
                GeneratorState::Complete(ret) => {
                    let ghost fragments = self.yielded@;
                    let ghost whole = ret;
                    let verdict = match ret.into_result() {
                        Err(e) => {
                            self.yielded.clear();
                            Attempt::Failed(e)
                        },
                        Ok(v) => {
                            let answer = (self.closure)(v);
                            assert(call_ensures(self.closure, (v,), answer));
                            match answer {
                                Ok(Some(value)) => {
                                    self.output = Some(value);
                                    Attempt::Accepted
                                },
                                Ok(None) => {
                                    self.yielded.clear();
                                    Attempt::Rejected
                                },
                                Err(e) => {
                                    self.yielded.clear();
                                    Attempt::Failed(e)
                                },
                            }
                        },
                    };
                    assert(Self::judged(
                        self.closure,
                        fragments,
                        whole,
                        self.yielded@,
                        self.output,
                        verdict,
                    ));
                    assert(drives(old(self).inner, fragments, whole, self.inner));
                    return verdict;
                },
            }
        }
    }

    /// Hands out what an accepted attempt kept back: the next fragment, or
    /// the value once the fragments are out. `None` says that nothing is kept
    /// back and an attempt is due.
    pub fn release(&mut self) -> (out: Option<
        GeneratorState<TG::Yield, Result<O, <TG::Return as GeneratorResult>::Err>>,
    >)
        ensures
            old(self).releases(final(self), out),
            old(self).inv() ==> final(self).inv(),
    {
        match self.yielded.pop_front() {
            Some(first) => Some(GeneratorState::Yielded(first)),
            None => match self.output.take() {
                Some(value) => Some(GeneratorState::Complete(Ok(value))),
                None => None,
            },
        }
    }

    /// Whether each state of `states` leads to the next by a rejected attempt.
    pub open spec fn rejections(states: Seq<Self>) -> bool {
        &&& states.len() >= 1
        &&& forall|i: int|
            0 <= i < states.len() - 1 ==> (#[trigger] states[i]).attempts(
                &states[i + 1],
                Attempt::Rejected,
            )
    }

    /// What a resumption that gives up after `limit` attempts may do.
    ///
    /// While something is kept back it is released. Otherwise attempts are made:
    /// after some rejected ones, which leave nothing behind, either the limit is
    /// reached and nothing is handed out, or an attempt fails and its failure ends
    /// the drive, or an attempt is accepted and the first of what it kept back is
    /// released. So a fragment that is handed out is always a fragment of the
    /// accepted attempt.
    pub open spec fn resumes_within(
        &self,
        after: &Self,
        limit: nat,
        out: Option<GeneratorState<TG::Yield, Result<O, <TG::Return as GeneratorResult>::Err>>>,
    ) -> bool {
        if !self.idle() {
            self.releases(after, out)
        } else {
            exists|states: Seq<Self>|
                {
                    &&& #[trigger] Self::rejections(states)
                    &&& states[0] == *self
                    &&& states.len() - 1 <= limit
                    &&& Self::decides(states.last(), after, states.len() - 1 == limit, out)
                }
        }
    }

    /// How the attempts that follow the rejected ones end: `before` is the state
    /// that the rejected attempts left, `exhausted` says that no attempt is left.
    pub open spec fn decides(
        before: Self,
        after: &Self,
        exhausted: bool,
        out: Option<GeneratorState<TG::Yield, Result<O, <TG::Return as GeneratorResult>::Err>>>,
    ) -> bool {
        ||| exhausted && out is None && *after == before
        ||| exists|decided: Self, verdict: Attempt<<TG::Return as GeneratorResult>::Err>|
            {
                &&& #[trigger] before.attempts(&decided, verdict)
                &&& match verdict {
                    Attempt::Rejected => false,
                    Attempt::Failed(e) => {
                        &&& *after == decided
                        &&& out == Some(
                            GeneratorState::<
                                TG::Yield,
                                Result<O, <TG::Return as GeneratorResult>::Err>,
                            >::Complete(Err(e)),
                        )
                    },
                    Attempt::Accepted => decided.releases(after, out),
                }
            }
    }

    /// Resumes the combinator, giving up after `limit` attempts: `None` says that
    /// every one of them was rejected.
    pub fn next_within(&mut self, rng: &mut rand::rngs::StdRng, limit: usize) -> (out: Option<
        GeneratorState<TG::Yield, Result<O, <TG::Return as GeneratorResult>::Err>>,
    >)
        requires
            old(self).inv(),
        ensures
            final(self).inv(),
            old(self).resumes_within(final(self), limit as nat, out),
    {
        if self.yielded.len() > 0 || self.output.is_some() {
            return self.release();
        }
        let ghost mut states: Seq<Self> = seq![*self];
        let mut made: usize = 0;
        while made < limit
            invariant
                self.inv(),
                self.idle(),
                old(self).idle(),
                Self::rejections(states),
                states[0] == *old(self),
                states.last() == *self,
                states.len() - 1 == made,
                made <= limit,
            decreases limit - made,
        {
            let ghost before = *self;
            match self.attempt(rng) {
                Attempt::Rejected => {
                    proof {
                        states = states.push(*self);
                    }
                    made = made + 1;
                },
                Attempt::Failed(e) => {
                    let out = Some(GeneratorState::Complete(Err(e)));
                    assert(before.attempts(&*self, Attempt::Failed(e)));
                    assert(Self::decides(before, &*self, states.len() - 1 == limit, out));
                    return out;
                },
                Attempt::Accepted => {
                    let ghost decided = *self;
                    let out = self.release();
                    assert(before.attempts(&decided, Attempt::Accepted));
                    assert(Self::decides(before, &*self, states.len() - 1 == limit, out));
                    return out;
                },
            }
        }
        assert(Self::decides(*self, &*self, states.len() - 1 == limit, None));
        None
    }
}

/// An aggregated drive is one batch and then the payload of one drive of the
/// wrapped generator.
///
/// Take a [`TryAggregate`] that holds nothing back, and a drive of it that
/// emits `batches` and completes with `ret`. Then there is exactly one batch,
/// and there is a drive of the wrapped generator that has emitted exactly the
/// fragments of the batch, in their order, and has completed with `ret`,
/// whether `ret` is a success or a failure.
pub proof fn lemma_aggregate_emits_one_batch<TG>(
    start: TryAggregate<TG>,
    batches: Seq<Vec<TG::Yield>>,
    ret: TG::Return,
    end: TryAggregate<TG>,
) where TG: Finite, TG::Return: GeneratorResult
    requires
        start.output is None,
        drives(start, batches, ret, end),
    ensures
        end.output is None,
        batches.len() == 1,
        drives(start.inner, batches[0]@, ret, end.inner),
{
    let states = choose|states: Seq<TryAggregate<TG>>|
        {
            &&& #[trigger] chain(states, batches)
            &&& states[0] == start
            &&& states.last().resumes(&end, GeneratorState::Complete(ret))
        };
    if batches.len() >= 1 {
        assert(states[0].resumes(
            &states[1],
            GeneratorState::<Vec<TG::Yield>, TG::Return>::Yielded(batches[0]),
        ));
        if batches.len() >= 2 {
            assert(states[1].resumes(
                &states[2],
                GeneratorState::<Vec<TG::Yield>, TG::Return>::Yielded(batches[1]),
            ));
        }
        assert(states.last() == states[1]);
    }
}

impl<TG, F, O> TryFilterMap<TG, F, O> where
    TG: Finite,
    TG::Return: GeneratorResult,
    F: Fn(<TG::Return as GeneratorResult>::Ok) -> Result<
        Option<O>,
        <TG::Return as GeneratorResult>::Err,
    >,
 {
    /// Rejected attempts leave nothing behind: after any number of them,
    /// nothing is kept back, so no fragment of theirs can ever be released.
    pub proof fn lemma_rejected_attempts_leave_nothing(states: Seq<Self>, i: int)
        requires
            Self::rejections(states),
            states[0].idle(),
            0 <= i < states.len(),
        ensures
            states[i].idle(),
    {
        if i > 0 {
            assert(states[i - 1].attempts(&states[i], Attempt::Rejected));
        }
    }

    /// An accepted attempt keeps back exactly its own fragments: what is kept
    /// back afterwards are the fragments of the one drive of the wrapped
    /// generator that the attempt made, in their order, whatever was attempted
    /// before.
    pub proof fn lemma_accepted_attempt_keeps_its_fragments(before: Self, after: Self)
        requires
            before.attempts(&after, Attempt::Accepted),
        ensures
            after.output is Some,
            exists|ret: TG::Return| #[trigger]
                drives(before.inner, after.yielded@, ret, after.inner) && ret.result() is Ok,
    {
        let (fragments, ret) = choose|fragments: Seq<TG::Yield>, ret: TG::Return|
            {
                &&& #[trigger] drives(before.inner, fragments, ret, after.inner)
                &&& Self::judged(
                    before.closure,
                    fragments,
                    ret,
                    after.yielded@,
                    after.output,
                    Attempt::Accepted,
                )
            };
        assert(drives(before.inner, after.yielded@, ret, after.inner));
    }
}

/// The constructors of the combinators, on every generator whose drives end in
/// a success or a failure.
pub trait TryGeneratorExt: TryGenerator where
    Self::Return: GeneratorResult<
        Ok = <Self as TryGenerator>::Ok,
        Err = <Self as TryGenerator>::Error,
    >,
 {
    /// Drains this generator into a single fragment: see [`TryOnce`].
    fn try_once(self) -> (once: TryOnce<Self>)
        ensures
            once.inner == self,
            once.output is None,
    {
        TryOnce { inner: self, output: None }
    }

    /// Replays the success of this generator as a fragment: see [`TryYield`].
    fn try_yield(self) -> (replayed: TryYield<Self>)
        ensures
            replayed.inner == self,
            replayed.yielded is None,
    {
        TryYield { inner: self, yielded: None }
    }

    /// Transforms the payload of a success by `f`: see [`MapOk`].
    fn map_ok<F, O>(self, f: F) -> (mapped: MapOk<Self, F, O>) where F: Fn(Self::Ok) -> O
        ensures
            mapped.inner == self,
            mapped.closure == f,
    {
        MapOk { inner: self, closure: f, _output: PhantomData }
    }

    /// Recovers from a failure with the generator that `f` builds from the
    /// error: see [`OrElseTry`].
    fn or_else_try<F, O>(self, f: F) -> (recovered: OrElseTry<Self, F, O>) where
        F: Fn(Self::Error) -> O,

        ensures
            recovered.inner == self,
            recovered.closure == f,
            recovered.output is None,
    {
        OrElseTry { inner: self, closure: f, output: None }
    }

    /// Goes on after a success with the generator that `f` builds from the
    /// payload: see [`AndThenTry`].
    fn and_then_try<F, O>(self, f: F) -> (sequenced: AndThenTry<Self, F, O>) where
        F: Fn(Self::Ok) -> O,

        ensures
            sequenced.inner == self,
            sequenced.closure == f,
            sequenced.output is None,
    {
        AndThenTry { inner: self, closure: f, output: None }
    }

    /// Drives this generator again until `f` takes the payload of a success:
    /// see [`TryFilterMap`].
    fn try_filter_map<F, O>(self, f: F) -> (filtered: TryFilterMap<Self, F, O>) where
        F: Fn(Self::Ok) -> Result<Option<O>, Self::Error>,

        ensures
            filtered.inner == self,
            filtered.closure == f,
            filtered.yielded@.len() == 0,
            filtered.output is None,
    {
        TryFilterMap { inner: self, yielded: VecDeque::new(), output: None, closure: f }
    }

    /// Collects the fragments of this generator into one batch: see
    /// [`TryAggregate`].
    fn try_aggregate(self) -> (aggregated: TryAggregate<Self>)
        ensures
            aggregated.inner == self,
            aggregated.output is None,
    {
        TryAggregate { inner: self, output: None }
    }
}

impl<TG> TryGeneratorExt for TG where TG: Generator, TG::Return: GeneratorResult {
}

} // verus!
