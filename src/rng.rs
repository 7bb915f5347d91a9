use vstd::prelude::*;

use nanorand::Rng as NanoRng;
use nanorand::WyRand;
use std::ops::Range;

verus! {

/// A source of uniformly random indices; implement it for any custom generator.
pub trait Rng: Send + Sync + Sized + 'static {
    /// A value drawn uniformly from `bounds.start..bounds.end`.
    fn gen_range(&mut self, bounds: Range<usize>) -> (r: usize)
        requires
            bounds.start < bounds.end,
        ensures
            bounds.start <= r < bounds.end,
    ;
}

/// A generator that can make a fresh instance of itself, one per worker.
pub trait RngProvider: Rng {
    fn init() -> Self;
}

#[verifier::external_type_specification]
#[verifier::external_body]
pub struct ExWyRand(WyRand);

/// Relies on nanorand::WyRand::new: a generator seeded from the system's entropy.
#[verifier::external_body]
fn wyrand_new() -> WyRand {
    WyRand::new()
}

/// Relies on nanorand's `Rng::generate_range` for `usize`: on `low..high` with
/// `low < high` it returns a value in `[low, high)` and does not panic.
#[verifier::external_body]
fn wyrand_range(g: &mut WyRand, low: usize, high: usize) -> (r: usize)
    requires
        low < high,
    ensures
        low <= r < high,
{
    g.generate_range(low..high)
}

/// The default generator, backed by nanorand's WyRand.
pub struct DefaultRng(WyRand);

impl Rng for DefaultRng {
    fn gen_range(&mut self, bounds: Range<usize>) -> (r: usize) {
        wyrand_range(&mut self.0, bounds.start, bounds.end)
    }
}

impl RngProvider for DefaultRng {
    fn init() -> Self {
        DefaultRng(wyrand_new())
    }
}

} // verus!
