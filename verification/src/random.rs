//! The random source that drives the generators, and the one draw that the
//! library makes from it.

use rand::distributions::uniform::{UniformDuration, UniformSampler};
use vstd::prelude::*;

verus! {

/// The source of randomness that is handed to every resumption.
#[verifier::external_type_specification]
#[verifier::external_body]
pub struct ExStdRng(rand::rngs::StdRng);

/// `rand::distributions::uniform::UniformDuration`, made for the spans from
/// none to the span of `max_secs` seconds and `max_nanos` nanoseconds and
/// sampled once: the span that is drawn lies between the two, ends included.
/// Which of them it is depends on the random source.
#[verifier::external_body]
pub(crate) fn draw_span(rng: &mut rand::rngs::StdRng, max_secs: u64, max_nanos: u32) -> (drawn: (
    u64,
    u32,
))
    requires
        max_nanos < 1_000_000_000,
    ensures
        drawn.1 < 1_000_000_000,
        drawn.0 * 1_000_000_000 + drawn.1 <= max_secs * 1_000_000_000 + max_nanos,
{
    let longest = core::time::Duration::new(max_secs, max_nanos);
    let spans = UniformDuration::new_inclusive(core::time::Duration::ZERO, longest);
    let drawn = spans.sample(rng);
    (drawn.as_secs(), drawn.subsec_nanos())
}

} // verus!
