//! The suspend/resume contract that every generator obeys, the meaning of a
//! whole drive in terms of single resumptions, and two generators to build
//! with: one that replays a list of outcomes and one that completes at once.

use core::marker::PhantomData;
use vstd::prelude::*;

verus! {

/// The outcome of one resumption of a generator.
#[derive(Clone, Copy, Debug, PartialEq, Eq)]
pub enum GeneratorState<Y, R> {
    /// A fragment was produced; the caller resumes again for more.
    Yielded(Y),
    /// The drive is over, with its final payload.
    Complete(R),
}

impl<Y, R> GeneratorState<Y, R> {
    /// Whether this outcome ends the drive.
    pub fn is_complete(&self) -> (b: bool)
        ensures
            b == (self is Complete),
    {
        match self {
            GeneratorState::Yielded(_) => false,
            GeneratorState::Complete(_) => true,
        }
    }

    /// Whether this outcome is a fragment.
    pub fn is_yielded(&self) -> (b: bool)
        ensures
            b == (self is Yielded),
    {
        match self {
            GeneratorState::Yielded(_) => true,
            GeneratorState::Complete(_) => false,
        }
    }

    /// Whether `mapped` is this outcome with its final payload, if it has
    /// one, transformed by `closure`.
    pub open spec fn maps_complete<O, F: FnOnce(R) -> O>(
        self,
        closure: F,
        mapped: GeneratorState<Y, O>,
    ) -> bool {
        match self {
            GeneratorState::Yielded(y) => mapped == GeneratorState::<Y, O>::Yielded(y),
            GeneratorState::Complete(ret) => mapped matches GeneratorState::Complete(to)
                && call_ensures(closure, (ret,), to),
        }
    }

    /// Transforms the final payload by `closure`; a fragment stays as it is.
    pub fn map_complete<O, F: FnOnce(R) -> O>(self, closure: F) -> (mapped: GeneratorState<Y, O>)
        requires
            self matches GeneratorState::Complete(ret) ==> call_requires(closure, (ret,)),
        ensures
            self.maps_complete(closure, mapped),
    {
        match self {
            GeneratorState::Yielded(y) => GeneratorState::Yielded(y),
            GeneratorState::Complete(ret) => GeneratorState::Complete(closure(ret)),
        }
    }
}

/// A resumable computation that is driven by the caller, one resumption at a time.
///
/// `resumes` is the generator's own account of what a single resumption may do:
/// it relates the state before, the state after and the outcome. What the random
/// source decides is left open by it, so it is a relation and not a function.
pub trait Generator: Sized {
    /// The fragments that the generator emits.
    type Yield;

    /// The payload that ends a drive.
    type Return;

    /// What holds of the generator between resumptions.
    spec fn inv(&self) -> bool;

    /// Whether one resumption may lead from `self` to `after` with the outcome `out`.
    spec fn resumes(&self, after: &Self, out: GeneratorState<Self::Yield, Self::Return>) -> bool;

    /// Whatever a resumption does, it leaves the generator fit to be resumed.
    proof fn lemma_resumption_keeps_inv(
        &self,
        after: &Self,
        out: GeneratorState<Self::Yield, Self::Return>,
    )
        requires
            self.inv(),
            self.resumes(after, out),
        ensures
            after.inv(),
    ;

    /// Resumes the generator once.
    fn next(&mut self, rng: &mut rand::rngs::StdRng) -> (out: GeneratorState<
        Self::Yield,
        Self::Return,
    >)
        requires
            old(self).inv(),
        ensures
            final(self).inv(),
            old(self).resumes(final(self), out),
    ;
}

/// A generator of which every drive ends: `pending` bounds the fragments that
/// are still to come before the drive completes.
pub trait Finite: Generator {
    /// The most fragments that any drive of a generator of this type emits.
    spec fn limit() -> nat;

    /// The most fragments that the current drive may still emit.
    spec fn pending(&self) -> nat;

    /// A generator between resumptions is within the limit of its type.
    proof fn lemma_pending_within_limit(&self)
        requires
            self.inv(),
        ensures
            self.pending() <= Self::limit(),
    ;

    /// Every fragment uses up some of what is pending.
    proof fn lemma_fragment_uses_pending(&self, after: &Self, fragment: Self::Yield)
        requires
            self.inv(),
        ensures
            self.resumes(after, GeneratorState::Yielded(fragment)) ==> after.pending()
                < self.pending(),
    ;
}

/// `states` is a run of resumptions that emits `fragments`, one for each step.
pub open spec fn chain<G: Generator>(states: Seq<G>, fragments: Seq<G::Yield>) -> bool {
    &&& states.len() == fragments.len() + 1
    &&& forall|i: int|
        0 <= i < fragments.len() ==> (#[trigger] states[i]).resumes(
            &states[i + 1],
            GeneratorState::Yielded(fragments[i]),
        )
}

/// A drive that starts in `start` can emit exactly `fragments`, in this order,
/// and then complete with `ret`, leaving the generator in `end`.
pub open spec fn drives<G: Generator>(
    start: G,
    fragments: Seq<G::Yield>,
    ret: G::Return,
    end: G,
) -> bool {
    exists|states: Seq<G>|
        {
            &&& #[trigger] chain(states, fragments)
            &&& states[0] == start
            &&& states.last().resumes(&end, GeneratorState::Complete(ret))
        }
}

/// Every state of a run that starts fit to be resumed is fit to be resumed.
pub proof fn lemma_chain_keeps_inv<G: Generator>(states: Seq<G>, fragments: Seq<G::Yield>, i: int)
    requires
        chain(states, fragments),
        states[0].inv(),
        0 <= i < states.len(),
    ensures
        states[i].inv(),
    decreases i,
{
    if i > 0 {
        lemma_chain_keeps_inv(states, fragments, i - 1);
        states[i - 1].lemma_resumption_keeps_inv(
            &states[i],
            GeneratorState::Yielded(fragments[i - 1]),
        );
    }
}

/// A drive that starts fit to be resumed ends fit to be resumed.
pub proof fn lemma_drive_keeps_inv<G: Generator>(
    start: G,
    fragments: Seq<G::Yield>,
    ret: G::Return,
    end: G,
)
    requires
        start.inv(),
        drives(start, fragments, ret, end),
    ensures
        end.inv(),
{
    let states = choose|states: Seq<G>|
        {
            &&& #[trigger] chain(states, fragments)
            &&& states[0] == start
            &&& states.last().resumes(&end, GeneratorState::Complete(ret))
        };
    lemma_chain_keeps_inv(states, fragments, states.len() - 1);
    states.last().lemma_resumption_keeps_inv(&end, GeneratorState::Complete(ret));
}

/// Drives `g` until it completes and hands back the final payload together
/// with the fragments that came before it.
pub fn drive<G: Finite>(g: &mut G, rng: &mut rand::rngs::StdRng) -> (done: (Vec<G::Yield>, G::Return))
    requires
        old(g).inv(),
    ensures
        final(g).inv(),
        drives(*old(g), done.0@, done.1, *final(g)),
{
    let ghost mut states: Seq<G> = seq![*g];
    let mut fragments: Vec<G::Yield> = Vec::new();
    loop
        invariant
            g.inv(),
            chain(states, fragments@),
            states[0] == *old(g),
            states.last() == *g,
        decreases g.pending(),
    {
        let ghost before = *g;
        match g.next(rng) {
            GeneratorState::Yielded(y) => {
                proof {
                    before.lemma_fragment_uses_pending(&*g, y);
                    states = states.push(*g);
                }
                fragments.push(y);
            },
            GeneratorState::Complete(ret) => {
                return (fragments, ret);
            },
        }
    }
}

/// The constructors of the combinators that every generator has.
pub trait GeneratorExt: Generator {
    /// Transforms the final payload by `f`: see [`MapComplete`].
    fn map_complete<F, O>(self, f: F) -> (mapped: MapComplete<Self, F, O>) where
        F: Fn(Self::Return) -> O,

        ensures
            mapped.inner == self,
            mapped.closure == f,
    {
        MapComplete { inner: self, closure: f, _output: PhantomData }
    }

    /// Goes on, when the drive is over, with the generator that `f` builds
    /// from the final payload: see [`AndThen`].
    fn and_then<F, O>(self, f: F) -> (sequenced: AndThen<Self, F, O>) where F: Fn(Self::Return) -> O
        ensures
            sequenced.inner == self,
            sequenced.closure == f,
            sequenced.output is None,
    {
        AndThen { inner: self, closure: f, output: None }
    }
}

impl<G> GeneratorExt for G where G: Generator {
}

/// Transforms the final payload of the wrapped generator; its fragments pass
/// unchanged.
pub struct MapComplete<G, F, O> {
    pub inner: G,
    pub closure: F,
    pub _output: PhantomData<O>,
}

impl<G, F, O> Generator for MapComplete<G, F, O> where G: Generator, F: Fn(G::Return) -> O {
    type Yield = G::Yield;

    type Return = O;

    open spec fn inv(&self) -> bool {
        &&& self.inner.inv()
        &&& forall|ret: G::Return| call_requires(self.closure, (ret,))
    }

    open spec fn resumes(
        &self,
        after: &Self,
        out: GeneratorState<Self::Yield, Self::Return>,
    ) -> bool {
        &&& after.closure == self.closure
        &&& exists|inner_out: GeneratorState<G::Yield, G::Return>|
            {
                &&& #[trigger] self.inner.resumes(&after.inner, inner_out)
                &&& inner_out.maps_complete(self.closure, out)
            }
    }

    proof fn lemma_resumption_keeps_inv(
        &self,
        after: &Self,
        out: GeneratorState<Self::Yield, Self::Return>,
    ) {
        let inner_out = choose|inner_out: GeneratorState<G::Yield, G::Return>|
            {
                &&& #[trigger] self.inner.resumes(&after.inner, inner_out)
                &&& inner_out.maps_complete(self.closure, out)
            };
        self.inner.lemma_resumption_keeps_inv(&after.inner, inner_out);
    }

    fn next(&mut self, rng: &mut rand::rngs::StdRng) -> (out: GeneratorState<
        Self::Yield,
        Self::Return,
    >) {
        let inner_out = self.inner.next(rng);
        let ghost seen = inner_out;
        let out = match inner_out {
            GeneratorState::Yielded(y) => GeneratorState::Yielded(y),
            GeneratorState::Complete(ret) => GeneratorState::Complete((self.closure)(ret)),
        };
        assert(old(self).inner.resumes(&self.inner, seen) && seen.maps_complete(
            self.closure,
            out,
        ));
        out
    }
}

impl<G, F, O> Finite for MapComplete<G, F, O> where G: Finite, F: Fn(G::Return) -> O {
    open spec fn limit() -> nat {
        G::limit()
    }

    open spec fn pending(&self) -> nat {
        self.inner.pending()
    }

    proof fn lemma_pending_within_limit(&self) {
        self.inner.lemma_pending_within_limit();
    }

    proof fn lemma_fragment_uses_pending(&self, after: &Self, fragment: Self::Yield) {
        if self.resumes(after, GeneratorState::Yielded(fragment)) {
            let inner_out = choose|inner_out: GeneratorState<G::Yield, G::Return>|
                {
                    &&& #[trigger] self.inner.resumes(&after.inner, inner_out)
                    &&& inner_out.maps_complete(
                        self.closure,
                        GeneratorState::<G::Yield, O>::Yielded(fragment),
                    )
                };
            self.inner.lemma_fragment_uses_pending(&after.inner, fragment);
        }
    }
}

/// Whether a resumption of the second stage `stage` leads to `stage_after`
/// with the outcome `out`, and `kept` is what the combinator holds afterwards:
/// the stage while its drive goes on, nothing once it has completed.
pub open spec fn resumes_stage<O: Generator>(
    stage: O,
    stage_after: O,
    out: GeneratorState<O::Yield, O::Return>,
    kept: Option<O>,
) -> bool {
    &&& stage.resumes(&stage_after, out)
    &&& kept == if out is Complete {
        None
    } else {
        Some(stage_after)
    }
}

/// Sequences two generators: drives the first to the end of its drive, builds
/// the second from its final payload and drives that. The fragments of both
/// are emitted in order, and the drive completes with the final payload of the
/// second.
pub struct AndThen<G, F, O> {
    pub inner: G,
    pub closure: F,
    pub output: Option<O>,
}

impl<G, F, O> AndThen<G, F, O> where
    G: Generator,
    F: Fn(G::Return) -> O,
    O: Generator<Yield = G::Yield>,
 {
    /// Whether the second stage that the closure builds from `payload` may be
    /// resumed once with the outcome `out`, leaving `kept` with the combinator.
    pub open spec fn builds(
        closure: F,
        payload: G::Return,
        out: GeneratorState<G::Yield, O::Return>,
        kept: Option<O>,
    ) -> bool {
        exists|stage: O, stage_after: O|
            {
                &&& call_ensures(closure, (payload,), stage)
                &&& #[trigger] resumes_stage(stage, stage_after, out, kept)
            }
    }

    /// What the combinator makes of the outcome `inner_out` of the first
    /// generator: a fragment passes, and the final payload builds the second
    /// stage, which is resumed at once.
    pub open spec fn first_stage(
        closure: F,
        inner_out: GeneratorState<G::Yield, G::Return>,
        out: GeneratorState<G::Yield, O::Return>,
        kept: Option<O>,
    ) -> bool {
        match inner_out {
            GeneratorState::Yielded(y) => {
                &&& out == GeneratorState::<G::Yield, O::Return>::Yielded(y)
                &&& kept is None
            },
            GeneratorState::Complete(payload) => Self::builds(closure, payload, out, kept),
        }
    }
}

impl<G, F, O> Generator for AndThen<G, F, O> where
    G: Generator,
    F: Fn(G::Return) -> O,
    O: Generator<Yield = G::Yield>,
 {
    type Yield = G::Yield;

    type Return = O::Return;

    open spec fn inv(&self) -> bool {
        &&& self.inner.inv()
        &&& self.output matches Some(stage) ==> stage.inv()
        &&& forall|payload: G::Return| call_requires(self.closure, (payload,))
        &&& forall|payload: G::Return, stage: O|
            call_ensures(self.closure, (payload,), stage) ==> stage.inv()
    }

    open spec fn resumes(
        &self,
        after: &Self,
        out: GeneratorState<Self::Yield, Self::Return>,
    ) -> bool {
        &&& after.closure == self.closure
        &&& match self.output {
            Some(stage) => {
                &&& after.inner == self.inner
                &&& exists|stage_after: O| #[trigger]
                    resumes_stage(stage, stage_after, out, after.output)
            },
            None => exists|inner_out: GeneratorState<G::Yield, G::Return>|
                {
                    &&& #[trigger] self.inner.resumes(&after.inner, inner_out)
                    &&& Self::first_stage(self.closure, inner_out, out, after.output)
                },
        }
    }

    proof fn lemma_resumption_keeps_inv(
        &self,
        after: &Self,
        out: GeneratorState<Self::Yield, Self::Return>,
    ) {
        match self.output {
            Some(stage) => {
                let stage_after = choose|stage_after: O| #[trigger]
                    resumes_stage(stage, stage_after, out, after.output);
                stage.lemma_resumption_keeps_inv(&stage_after, out);
            },
            None => {
                let inner_out = choose|inner_out: GeneratorState<G::Yield, G::Return>|
                    {
                        &&& #[trigger] self.inner.resumes(&after.inner, inner_out)
                        &&& Self::first_stage(self.closure, inner_out, out, after.output)
                    };
                self.inner.lemma_resumption_keeps_inv(&after.inner, inner_out);
                if let GeneratorState::Complete(payload) = inner_out {
                    let (stage, stage_after) = choose|stage: O, stage_after: O|
                        {
                            &&& call_ensures(self.closure, (payload,), stage)
                            &&& #[trigger] resumes_stage(stage, stage_after, out, after.output)
                        };
                    stage.lemma_resumption_keeps_inv(&stage_after, out);
                }
            },
        }
    }

    fn next(&mut self, rng: &mut rand::rngs::StdRng) -> (out: GeneratorState<
        Self::Yield,
        Self::Return,
    >) {
        match self.output.take() {
            Some(stage) => {
                let mut stage = stage;
                let ghost stage_before = stage;
                let out = stage.next(rng);
                let ghost stage_after = stage;
                if !out.is_complete() {
                    self.output = Some(stage);
                }
                assert(resumes_stage(stage_before, stage_after, out, self.output));
                out
            },
            None => {
                let inner_out = self.inner.next(rng);
                let ghost seen = inner_out;
                match inner_out {
                    GeneratorState::Yielded(y) => {
                        let out = GeneratorState::Yielded(y);
                        assert(Self::first_stage(self.closure, seen, out, self.output));
                        out
                    },
                    GeneratorState::Complete(payload) => {
                        let mut stage = (self.closure)(payload);
                        let ghost stage_before = stage;
                        let out = stage.next(rng);
                        let ghost stage_after = stage;
                        if !out.is_complete() {
                            self.output = Some(stage);
                        }
                        assert(resumes_stage(stage_before, stage_after, out, self.output));
                        assert(Self::builds(self.closure, payload, out, self.output));
                        assert(Self::first_stage(self.closure, seen, out, self.output));
                        out
                    },
                }
            },
        }
    }
}

impl<G, F, O> Finite for AndThen<G, F, O> where
    G: Finite,
    F: Fn(G::Return) -> O,
    O: Finite<Yield = G::Yield>,
 {
    open spec fn limit() -> nat {
        G::limit() + O::limit() + 1
    }

    open spec fn pending(&self) -> nat {
        match self.output {
            Some(stage) => stage.pending(),
            None => self.inner.pending() + O::limit() + 1,
        }
    }

    proof fn lemma_pending_within_limit(&self) {
        self.inner.lemma_pending_within_limit();
        if let Some(stage) = self.output {
            stage.lemma_pending_within_limit();
        }
    }

    proof fn lemma_fragment_uses_pending(&self, after: &Self, fragment: Self::Yield) {
        let out = GeneratorState::<Self::Yield, Self::Return>::Yielded(fragment);
        if self.resumes(after, out) {
            match self.output {
                Some(stage) => {
                    let stage_after = choose|stage_after: O| #[trigger]
                        resumes_stage(stage, stage_after, out, after.output);
                    stage.lemma_fragment_uses_pending(&stage_after, fragment);
                },
                None => {
                    let inner_out = choose|inner_out: GeneratorState<G::Yield, G::Return>|
                        {
                            &&& #[trigger] self.inner.resumes(&after.inner, inner_out)
                            &&& Self::first_stage(self.closure, inner_out, out, after.output)
                        };
                    match inner_out {
                        GeneratorState::Yielded(y) => {
                            self.inner.lemma_fragment_uses_pending(&after.inner, fragment);
                        },
                        GeneratorState::Complete(payload) => {
                            let (stage, stage_after) = choose|stage: O, stage_after: O|
                                {
                                    &&& call_ensures(self.closure, (payload,), stage)
                                    &&& #[trigger] resumes_stage(
                                        stage,
                                        stage_after,
                                        out,
                                        after.output,
                                    )
                                };
                            stage.lemma_pending_within_limit();
                            stage.lemma_fragment_uses_pending(&stage_after, fragment);
                        },
                    }
                },
            }
        }
    }
}

/// A generator that hands out a fixed list of outcomes, one for each
/// resumption, and starts over when the list is through. The last outcome of
/// the list ends a drive, so that every drive ends.
pub struct Replay<Y: Copy, R: Copy> {
    steps: Vec<GeneratorState<Y, R>>,
    cursor: usize,
}

impl<Y: Copy, R: Copy> Replay<Y, R> {
    /// The outcomes that are handed out, in their order.
    pub closed spec fn steps(self) -> Seq<GeneratorState<Y, R>> {
        self.steps@
    }

    /// The place in the list of the outcome that comes next.
    pub closed spec fn cursor(self) -> int {
        self.cursor as int
    }

    /// Whether `steps` can be replayed: the list is not empty and its last
    /// outcome ends a drive.
    pub open spec fn replayable(steps: Seq<GeneratorState<Y, R>>) -> bool {
        0 < steps.len() <= usize::MAX && steps.last() is Complete
    }

    /// The list can be replayed and the cursor is a place in it.
    #[verifier::type_invariant]
    pub closed spec fn valid(self) -> bool {
        &&& 0 < self.steps@.len() <= usize::MAX
        &&& self.steps@.last() is Complete
        &&& self.cursor < self.steps@.len()
    }

    /// What `valid` says, over the list and the cursor.
    pub proof fn lemma_valid(self)
        ensures
            self.valid() <==> Self::replayable(self.steps()) && 0 <= self.cursor()
                < self.steps().len(),
    {
    }

    /// The generator that replays `steps` from the first, if the list can be
    /// replayed.
    pub fn new(steps: Vec<GeneratorState<Y, R>>) -> (replay: Option<Self>)
        ensures
            replay is Some <==> Self::replayable(steps@),
            replay matches Some(r) ==> r.steps() == steps@ && r.cursor() == 0 && r.valid(),
    {
        let len = steps.len();
        if len == 0 {
            return None;
        }
        let last = steps[len - 1];
        match last {
            GeneratorState::Complete(_) => Some(Replay { steps, cursor: 0 }),
            GeneratorState::Yielded(_) => None,
        }
    }
}

impl<Y: Copy, R: Copy> Generator for Replay<Y, R> {
    type Yield = Y;

    type Return = R;

    open spec fn inv(&self) -> bool {
        self.valid()
    }

    open spec fn resumes(
        &self,
        after: &Self,
        out: GeneratorState<Self::Yield, Self::Return>,
    ) -> bool {
        &&& after.valid()
        &&& after.steps() == self.steps()
        &&& out == self.steps()[self.cursor()]
        &&& after.cursor() == if self.cursor() + 1 == self.steps().len() {
            0
        } else {
            self.cursor() + 1
        }
    }

    proof fn lemma_resumption_keeps_inv(
        &self,
        after: &Self,
        out: GeneratorState<Self::Yield, Self::Return>,
    ) {
    }

    fn next(&mut self, rng: &mut rand::rngs::StdRng) -> (out: GeneratorState<
        Self::Yield,
        Self::Return,
    >) {
        proof {
            use_type_invariant(&*self);
        }
        let len = self.steps.len();
        let out = self.steps[self.cursor];
        let following = if self.cursor + 1 == len {
            0
        } else {
            self.cursor + 1
        };
        self.cursor = following;
        out
    }
}

impl<Y: Copy, R: Copy> Finite for Replay<Y, R> {
    open spec fn limit() -> nat {
        usize::MAX as nat
    }

    open spec fn pending(&self) -> nat {
        (self.steps().len() - 1 - self.cursor()) as nat
    }

    proof fn lemma_pending_within_limit(&self) {
        self.lemma_valid();
    }

    proof fn lemma_fragment_uses_pending(&self, after: &Self, fragment: Self::Yield) {
        if self.resumes(after, GeneratorState::Yielded(fragment)) {
            self.lemma_valid();
        }
    }
}

/// A generator of which every drive completes at once, with the same payload
/// and without a fragment.
pub struct Constant<Y, R> {
    pub value: R,
    pub _fragment: PhantomData<Y>,
}

impl<Y, R: Copy> Constant<Y, R> {
    /// The generator that completes every drive with `value`.
    pub fn new(value: R) -> (constant: Self)
        ensures
            constant.value == value,
    {
        Constant { value, _fragment: PhantomData }
    }
}

impl<Y, R: Copy> Generator for Constant<Y, R> {
    type Yield = Y;

    type Return = R;

    open spec fn inv(&self) -> bool {
        true
    }

    open spec fn resumes(
        &self,
        after: &Self,
        out: GeneratorState<Self::Yield, Self::Return>,
    ) -> bool {
        &&& after.value == self.value
        &&& out == GeneratorState::<Y, R>::Complete(self.value)
    }

    proof fn lemma_resumption_keeps_inv(
        &self,
        after: &Self,
        out: GeneratorState<Self::Yield, Self::Return>,
    ) {
    }

    fn next(&mut self, rng: &mut rand::rngs::StdRng) -> (out: GeneratorState<
        Self::Yield,
        Self::Return,
    >) {
        GeneratorState::Complete(self.value)
    }
}

impl<Y, R: Copy> Finite for Constant<Y, R> {
    open spec fn limit() -> nat {
        0
    }

    open spec fn pending(&self) -> nat {
        0
    }

    proof fn lemma_pending_within_limit(&self) {
    }

    proof fn lemma_fragment_uses_pending(&self, after: &Self, fragment: Self::Yield) {
    }
}

} // verus!
