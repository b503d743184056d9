//! The renderer's random source.
//!
//! Randomness is threaded explicitly: a `Sampler` either draws from the
//! process random generator (`Live`), steps a seeded splitmix64 stream
//! (`Seeded`), or returns fixed values (`Disabled`). The seeded and disabled
//! modes are exact mathematical functions of the sampler state, which is what
//! makes a seeded render reproducible bit for bit.

use vstd::prelude::*;

verus! {

use crate::fixed::FX_ONE;
use vstd::wrapping::u64_specs;

/// The splitmix64 stream increment.
pub const SM_GAMMA: u64 = 0x9E3779B97F4A7C15;

/// The splitmix64 output scrambler, as a function of the stream state.
pub open spec fn spec_scramble(s: u64) -> u64 {
    let z1 = u64_specs::wrapping_mul(s ^ (s >> 30), 0xBF58476D1CE4E5B9);
    let z2 = u64_specs::wrapping_mul(z1 ^ (z1 >> 27), 0x94D049BB133111EB);
    z2 ^ (z2 >> 31)
}

/// The successor state of the splitmix64 stream.
pub open spec fn spec_next_state(s: u64) -> u64 {
    u64_specs::wrapping_add(s, SM_GAMMA)
}

/// A source of random draws. `Seeded` and `Disabled` are deterministic;
/// `Live` defers to the process generator.
#[derive(Clone, Copy, Debug, PartialEq, Eq, Structural)]
pub enum Sampler {
    /// Draws from the process random generator.
    Live,
    /// Steps a splitmix64 stream from the held state.
    Seeded(u64),
    /// Every draw is zero; scattering passes rays through unperturbed.
    Disabled,
}

/// What a deterministic sampler yields for a draw in `[0, FX_ONE)`, along
/// with its successor.
pub open spec fn spec_next_unit(s: Sampler) -> (i64, Sampler) {
    match s {
        Sampler::Live => (0, s),
        Sampler::Seeded(st) => {
            let ns = spec_next_state(st);
            ((spec_scramble(ns) % 0x10000) as i64, Sampler::Seeded(ns))
        },
        Sampler::Disabled => (0, s),
    }
}

/// What a deterministic sampler yields for a draw in `[-FX_ONE, FX_ONE)`,
/// along with its successor; disabled sampling yields zero.
pub open spec fn spec_next_sym(s: Sampler) -> (i64, Sampler) {
    match s {
        Sampler::Live => (0, s),
        Sampler::Seeded(st) => {
            let ns = spec_next_state(st);
            (((spec_scramble(ns) % 0x20000) - 0x10000) as i64, Sampler::Seeded(ns))
        },
        Sampler::Disabled => (0, s),
    }
}

/// The seeded stream a pixel at `(row, col)` samples from: the base state
/// mixed with the row, then with the column.
pub open spec fn spec_pixel_state(s: u64, row: u64, col: u64) -> u64 {
    spec_scramble(u64_specs::wrapping_add(spec_scramble(u64_specs::wrapping_add(s, row)), col))
}

impl Sampler {
    /// Whether two runs from this sampler yield the same draws.
    pub open spec fn deterministic(self) -> bool {
        !(self is Live)
    }

    /// A uniform draw in `[0, FX_ONE)`; zero when sampling is disabled.
    pub fn next_unit(&mut self) -> (r: i64)
        ensures
            0 <= r < FX_ONE,
            old(self).deterministic() ==> r == spec_next_unit(*old(self)).0,
            old(self).deterministic() ==> *final(self) == spec_next_unit(*old(self)).1,
            !old(self).deterministic() ==> *final(self) == *old(self),
    {
        let cur = *self;
        match cur {
            Sampler::Live => rand_below(65536) as i64,
            Sampler::Seeded(st) => {
                let ns = st.wrapping_add(SM_GAMMA);
                *self = Sampler::Seeded(ns);
                (scramble(ns) % 65536) as i64
            },
            Sampler::Disabled => 0,
        }
    }

    /// A uniform draw in `[-FX_ONE, FX_ONE)`; zero when sampling is disabled.
    pub fn next_sym(&mut self) -> (r: i64)
        ensures
            -FX_ONE <= r < FX_ONE,
            old(self).deterministic() ==> r == spec_next_sym(*old(self)).0,
            old(self).deterministic() ==> *final(self) == spec_next_sym(*old(self)).1,
            !old(self).deterministic() ==> *final(self) == *old(self),
    {
        let cur = *self;
        match cur {
            Sampler::Live => rand_below(131072) as i64 - 65536,
            Sampler::Seeded(st) => {
                let ns = st.wrapping_add(SM_GAMMA);
                *self = Sampler::Seeded(ns);
                (scramble(ns) % 131072) as i64 - 65536
            },
            Sampler::Disabled => 0,
        }
    }

    /// The sampler a pixel at `(row, col)` draws from. A seeded sampler
    /// yields a stream that depends only on the seed and the pixel, so the
    /// partition of pixels among workers cannot change any pixel's draws.
    pub fn for_pixel(&self, row: usize, col: usize) -> (r: Sampler)
        ensures
            *self is Seeded ==> r == Sampler::Seeded(
                spec_pixel_state(self->Seeded_0, row as u64, col as u64),
            ),
            !(*self is Seeded) ==> r == *self,
            r.deterministic() == self.deterministic(),
    {
        let cur = *self;
        match cur {
            Sampler::Live => Sampler::Live,
            Sampler::Seeded(st) => {
                let a = scramble(st.wrapping_add(row as u64));
                Sampler::Seeded(scramble(a.wrapping_add(col as u64)))
            },
            Sampler::Disabled => Sampler::Disabled,
        }
    }
}

/// The splitmix64 output scrambler.
fn scramble(s: u64) -> (r: u64)
    ensures
        r == spec_scramble(s),
{
    let z1: u64 = (s ^ (s >> 30)).wrapping_mul(0xBF58476D1CE4E5B9);
    let z2: u64 = (z1 ^ (z1 >> 27)).wrapping_mul(0x94D049BB133111EB);
    z2 ^ (z2 >> 31)
}

/// Relies on rand::random_range: a uniform draw from `0..n`, so the result
/// is below `n`; the range is nonempty, so the call does not panic.
#[verifier::external_body]
fn rand_below(n: u64) -> (r: u64)
    requires
        n >= 1,
    ensures
        r < n,
{
    rand::random_range(0..n)
}

} // verus!
