//! A small seedable random number generator.
//!
//! The generator is an ordinary value that gets threaded through the code
//! that needs it, so `--seed` reproducibility is a property of the call graph
//! rather than of hidden state.
//!
//! SplitMix64 is the algorithm: a single multiply-xor-shift chain with no
//! carried state beyond a counter. It is not cryptographic and does not need to
//! be — it picks words for a typing test.
use vstd::prelude::*;

verus! {

/// The counter's step: an odd constant, so the counter visits every state.
pub const GAMMA: u64 = 0x9E37_79B9_7F4A_7C15;

/// The output function applied to each new counter value.
#[verifier::opaque]
pub open spec fn mix(state: u64) -> u64 {
    let z1 = (state ^ (state >> 30u64)).wrapping_mul(0xBF58_476D_1CE4_E5B9u64);
    let z2 = (z1 ^ (z1 >> 27u64)).wrapping_mul(0x94D0_49BB_1331_11EBu64);
    z2 ^ (z2 >> 31u64)
}

/// The counter after one step.
pub open spec fn advance(state: u64) -> u64 {
    state.wrapping_add(GAMMA)
}

/// The largest multiple of `n` that fits below `u64::MAX`: values under it
/// fold onto `0..n` evenly.
pub open spec fn rejection_limit(n: u64) -> u64 {
    (u64::MAX - u64::MAX % n) as u64
}

/// Draws until an output falls under the rejection limit, and folds it onto
/// `0..n`: the result and the state after the draws. `fuel` bounds the
/// number of redraws; the counter has period 2^64, so a full period of
/// outputs is far more than any draw needs.
pub open spec fn below_spec(state: u64, n: u64, fuel: nat) -> (u64, u64)
    decreases fuel,
{
    let next = advance(state);
    let value = mix(next);
    if value < rejection_limit(n) || fuel == 0 {
        ((value % n) as u64, next)
    } else {
        below_spec(next, n, (fuel - 1) as nat)
    }
}

/// A draw below `n` is below `n`.
pub proof fn lemma_below_in_range(state: u64, n: u64, fuel: nat)
    requires
        n > 0,
    ensures
        below_spec(state, n, fuel).0 < n,
    decreases fuel,
{
    let next = advance(state);
    let value = mix(next);
    if !(value < rejection_limit(n) || fuel == 0) {
        lemma_below_in_range(next, n, (fuel - 1) as nat);
    }
}

/// The number of redraws a draw is allowed.
pub open spec fn draw_fuel() -> nat {
    u64::MAX as nat
}

/// The seed made from the clock when the operating system has no entropy
/// to give: the nanoseconds since the epoch, mixed with the process id.
pub open spec fn clock_seed(nanos: u64, pid: u32) -> u64 {
    nanos ^ (pid as u64).wrapping_mul(GAMMA)
}

pub struct Rng {
    pub state: u64,
}

impl Rng {
    /// A generator that will produce the same words every time.
    pub fn seeded(seed: u64) -> (r: Self)
        ensures
            r.state == seed,
    {
        Rng { state: seed }
    }

    /// A generator seeded from the operating system's entropy (`os`, where it
    /// could be read), falling back to the clock and the process id.
    pub fn from_entropy(os: Option<u64>, nanos: u64, pid: u32) -> (r: Self)
        ensures
            r.state == match os {
                Some(seed) => seed,
                None => clock_seed(nanos, pid),
            },
    {
        match os {
            Some(seed) => Rng::seeded(seed),
            None => Rng::seeded(nanos ^ (pid as u64).wrapping_mul(GAMMA)),
        }
    }

    pub fn next_u64(&mut self) -> (v: u64)
        ensures
            final(self).state == advance(old(self).state),
            v == mix(final(self).state),
    {
        proof {
            reveal(mix);
        }
        self.state = self.state.wrapping_add(GAMMA);
        let z = self.state;
        let z = (z ^ (z >> 30)).wrapping_mul(0xBF58_476D_1CE4_E5B9);
        let z = (z ^ (z >> 27)).wrapping_mul(0x94D0_49BB_1331_11EB);
        z ^ (z >> 31)
    }

    /// A uniform integer in `0..n`.
    ///
    /// Values are rejected rather than folded with a bare modulo, which would
    /// make the low end of the range very slightly more likely.
    pub fn below(&mut self, n: usize) -> (r: usize)
        requires
            n > 0,
        ensures
            r < n,
            r as u64 == below_spec(old(self).state, n as u64, draw_fuel()).0,
            final(self).state == below_spec(old(self).state, n as u64, draw_fuel()).1,
    {
        let bound = n as u64;
        let limit = u64::MAX - (u64::MAX % bound);
        let mut fuel: u64 = u64::MAX;
        let ghost start = self.state;
        loop
            invariant
                bound > 0,
                bound == n,
                start == old(self).state,
                limit == rejection_limit(bound),
                below_spec(self.state, bound, fuel as nat) == below_spec(start, bound, draw_fuel()),
            decreases fuel,
        {
            let ghost before = self.state;
            let value = self.next_u64();
            assert(below_spec(before, bound, fuel as nat) == (if value < limit || fuel == 0 {
                ((value % bound) as u64, self.state)
            } else {
                below_spec(self.state, bound, (fuel - 1) as nat)
            }));
            if value < limit || fuel == 0 {
                return (value % bound) as usize;
            }
            fuel = fuel - 1;
        }
    }

    /// The next 53 random bits: a uniform fraction in `0.0..1.0` is this
    /// over 2^53.
    pub fn fraction_bits(&mut self) -> (r: u64)
        ensures
            final(self).state == advance(old(self).state),
            r == mix(final(self).state) >> 11u64,
            r < 0x20_0000_0000_0000,
    {
        let v = self.next_u64();
        assert(v >> 11u64 < 0x20_0000_0000_0000) by (bit_vector);
        v >> 11
    }

    /// A uniform integer in `low..=high`.
    pub fn between(&mut self, low: u32, high: u32) -> (r: u32)
        requires
            low <= high,
            high - low < u32::MAX,
        ensures
            low <= r <= high,
            r == low + below_spec(old(self).state, (high - low + 1) as u64, draw_fuel()).0,
            final(self).state == below_spec(old(self).state, (high - low + 1) as u64, draw_fuel()).1,
    {
        let span = high - low + 1;
        low + self.below(span as usize) as u32
    }

    /// One of the given items.
    pub fn pick<'a, T>(&mut self, items: &'a [T]) -> (r: &'a T)
        requires
            items@.len() > 0,
        ensures
            ({
                let i = below_spec(old(self).state, items@.len() as u64, draw_fuel()).0 as int;
                &&& 0 <= i < items@.len()
                &&& *r == items@[i]
            }),
            final(self).state == below_spec(old(self).state, items@.len() as u64, draw_fuel()).1,
    {
        let i = self.below(items.len());
        &items[i]
    }
}

} // verus!
