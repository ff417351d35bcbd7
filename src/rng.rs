use rand::Rng;
use vstd::prelude::*;

verus! {

/// rand's standard generator, carried through the searches as an opaque value.
#[verifier::external_type_specification]
#[verifier::external_body]
pub struct ExStdRng(rand::StdRng);

/// Relies on rand's `Rng::next_u32` for `StdRng`: it returns the next 32 bits
/// of the stream, any value being possible.
#[verifier::external_body]
pub(crate) fn next_u32(rng: &mut rand::StdRng) -> (r: u32) {
    rng.next_u32()
}

/// A pseudorandom number below `bound`: the next 32 bits of the stream, reduced
/// modulo `bound`.
pub fn random_below(rng: &mut rand::StdRng, bound: usize) -> (r: usize)
    requires
        bound > 0,
    ensures
        r < bound,
{
    let x = next_u32(rng);
    draw_below(x, bound)
}

/// The number below `bound` that a 32-bit draw `x` stands for: `x` modulo
/// `bound`.
pub fn draw_below(x: u32, bound: usize) -> (r: usize)
    requires
        bound > 0,
    ensures
        r == x as usize % bound,
        r < bound,
{
    (x as usize) % bound
}

/// Whether an event of chance `p` happens, `p` being given in units of
/// 2^-32 (so [`CERTAIN`] always happens and 0 never does): the next 32 bits of
/// the stream, read as a number, fall below `p`.
pub fn chance(rng: &mut rand::StdRng, p: u64) -> (r: bool)
    ensures
        p == 0 ==> !r,
        p >= CERTAIN ==> r,
{
    let x = next_u32(rng);
    (x as u64) < p
}

/// The chance of an event that always happens, in units of 2^-32.
pub const CERTAIN: u64 = 4294967296;

} // verus!
