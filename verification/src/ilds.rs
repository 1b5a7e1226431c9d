//! The generators: `VdCorput` for one dimension, `Halton` for two.

use crate::radical::lemma_pow_nat_increases;
use crate::radical::lemma_pow_nat_positive;
use crate::radical::lemma_radical_inverse_bound;
use crate::radical::lemma_radical_inverse_distinct;
use crate::radical::pow_nat;
use crate::radical::radical_inverse;
use vstd::prelude::*;

verus! {

broadcast use vstd::arithmetic::div_mod::lemma_div_decreases;

/// The abstract state of one Van der Corput generator: the parameters it was
/// built with and the counter it has reached.
pub struct GenState {
    pub base: nat,
    pub scale: nat,
    pub count: nat,
}

/// The state a generator is in right after construction.
pub open spec fn initial_state(base: nat, scale: nat) -> GenState {
    GenState { base, scale, count: 0 }
}

/// The state after `reseed(seed)`: the counter is replaced outright.
pub open spec fn reseeded(s: GenState, seed: nat) -> GenState {
    GenState { count: seed, ..s }
}

/// The state after one draw: the counter has advanced by one.
pub open spec fn stepped(s: GenState) -> GenState {
    GenState { count: s.count + 1, ..s }
}

/// The value the next draw returns: the radical inverse of the advanced
/// counter, scaled by `base^scale`.
pub open spec fn next_value(s: GenState) -> nat {
    radical_inverse(s.count + 1, s.base, pow_nat(s.base, s.scale))
}

/// The next `n` values a generator in state `s` will draw, in order.
pub open spec fn upcoming(s: GenState, n: nat) -> Seq<nat> {
    Seq::new(
        n,
        |i: int| radical_inverse((s.count + 1 + i) as nat, s.base, pow_nat(s.base, s.scale)),
    )
}

/// Determinism: generators that share base, scale and counter draw the very
/// same sequence of values, however each of them was constructed.
pub proof fn lemma_determinism(s1: GenState, s2: GenState, n: nat)
    requires
        s1.base == s2.base,
        s1.scale == s2.scale,
        s1.count == s2.count,
    ensures
        upcoming(s1, n) == upcoming(s2, n),
{
    assert(s1 == s2);
}

/// Reseeding to 0 puts a generator exactly where a fresh one starts: both
/// count from 1, so their draws coincide from the first on.
pub proof fn lemma_reseed_zero_matches_fresh(s: GenState, n: nat)
    ensures
        upcoming(reseeded(s, 0), n) == upcoming(initial_state(s.base, s.scale), n),
{
    assert(reseeded(s, 0) == initial_state(s.base, s.scale));
}

/// The head of the upcoming sequence is the next draw, and drawing once
/// peels it off.
pub proof fn lemma_upcoming_step(s: GenState, n: nat)
    requires
        n >= 1,
    ensures
        upcoming(s, n)[0] == next_value(s),
        upcoming(s, n).drop_first() == upcoming(stepped(s), (n - 1) as nat),
{
    assert(upcoming(s, n).drop_first() =~= upcoming(stepped(s), (n - 1) as nat));
}

/// Within one full period the generator never repeats: the draws made for
/// counters 1 through `base^scale` are pairwise distinct.
pub proof fn lemma_no_repeats_within_period(base: nat, scale: nat, n: nat, i: int, j: int)
    requires
        base >= 2,
        n <= pow_nat(base, scale),
        0 <= i < n,
        0 <= j < n,
        i != j,
    ensures
        upcoming(initial_state(base, scale), n)[i] != upcoming(initial_state(base, scale), n)[j],
{
    lemma_radical_inverse_distinct(base, scale, (i + 1) as nat, (j + 1) as nat);
}

/// Integer Van der Corput sequence generator.
///
/// Maps a running counter to the reversal of its base-`base` digits, scaled
/// to the range `[0, base^scale)`.
pub struct VdCorput {
    base: u32,
    scale: u32,
    count: u32,
    factor: u32,
}

impl View for VdCorput {
    type V = GenState;

    closed spec fn view(&self) -> GenState {
        GenState { base: self.base as nat, scale: self.scale as nat, count: self.count as nat }
    }
}

impl VdCorput {
    /// The generator's internal invariant: the base supports digit
    /// decomposition and the cached factor is exactly `base^scale`.
    pub closed spec fn wf(&self) -> bool {
        &&& self.base >= 2
        &&& self.factor as nat == pow_nat(self.base as nat, self.scale as nat)
    }

    /// Creates a generator for the given base and scale, with the counter
    /// at 0.  The base must support digit decomposition and `base^scale`
    /// must be representable.
    pub fn new(base: u32, scale: u32) -> (r: Self)
        requires
            base >= 2,
            pow_nat(base as nat, scale as nat) <= u32::MAX,
        ensures
            r.wf(),
            r@ == initial_state(base as nat, scale as nat),
    {
        let mut factor: u32 = 1;
        let mut i: u32 = 0;
        while i < scale
            invariant
                base >= 2,
                i <= scale,
                pow_nat(base as nat, scale as nat) <= u32::MAX,
                factor as nat == pow_nat(base as nat, i as nat),
            decreases scale - i,
        {
            proof {
                lemma_pow_nat_increases(base as nat, (i + 1) as nat, scale as nat);
                assert(pow_nat(base as nat, (i + 1) as nat) == base * pow_nat(
                    base as nat,
                    i as nat,
                ));
            }
            factor = factor * base;
            i = i + 1;
        }
        VdCorput { base, scale, count: 0, factor }
    }

    /// Draws the next value: advances the counter by one and returns the
    /// radical inverse of the new counter.  The result always lies below
    /// `base^scale`.
    #[verifier::loop_isolation(false)]
    pub fn pop(&mut self) -> (r: u32)
        requires
            old(self).wf(),
            old(self)@.count < u32::MAX,
        ensures
            final(self).wf(),
            final(self)@ == stepped(old(self)@),
            r as nat == next_value(old(self)@),
            (r as nat) < pow_nat(final(self)@.base, final(self)@.scale),
    {
        self.count = self.count + 1;
        let ghost b: nat = self.base as nat;
        let ghost total: nat = radical_inverse(self.count as nat, b, self.factor as nat);
        proof {
            lemma_pow_nat_positive(b, self.scale as nat);
            lemma_radical_inverse_bound(self.count as nat, b, self.factor as nat);
        }
        let mut k: u32 = self.count;
        let mut vdc: u32 = 0;
        let mut factor: u32 = self.factor;
        while k != 0
            invariant
                vdc as nat + radical_inverse(k as nat, b, factor as nat) == total,
            decreases k,
        {
            let ghost k0: nat = k as nat;
            let ghost f0: nat = factor as nat;
            proof {
                assert(radical_inverse(k0, b, f0) == (k0 % b) * (f0 / b) + radical_inverse(
                    k0 / b,
                    b,
                    f0 / b,
                ));
            }
            factor = factor / self.base;
            let remainder = k % self.base;
            k = k / self.base;
            vdc = vdc + remainder * factor;
        }
        vdc
    }

    /// Resets the counter to `seed`, replacing it outright; the next draw
    /// therefore yields the radical inverse of `seed + 1`.
    pub fn reseed(&mut self, seed: u32)
        requires
            old(self).wf(),
        ensures
            final(self).wf(),
            final(self)@ == reseeded(old(self)@, seed as nat),
    {
        self.count = seed;
    }
}

impl Default for VdCorput {
    /// The conventional configuration: base 2 with ten binary digit places,
    /// so draws range over `[0, 1024)`.
    fn default() -> (r: Self)
        ensures
            r.wf(),
            r@ == initial_state(2, 10),
    {
        proof {
            assert(pow_nat(2, 10) == 1024) by {
                reveal_with_fuel(pow_nat, 11);
            }
        }
        Self::new(2, 10)
    }
}

/// Integer Halton sequence generator: one Van der Corput generator per
/// dimension, advanced in lock-step to yield a 2-dimensional point per draw.
pub struct Halton {
    vdc0: VdCorput,
    vdc1: VdCorput,
}

impl View for Halton {
    type V = (GenState, GenState);

    closed spec fn view(&self) -> (GenState, GenState) {
        (self.vdc0@, self.vdc1@)
    }
}

impl Halton {
    /// Both sub-generators are well-formed.
    pub closed spec fn wf(&self) -> bool {
        self.vdc0.wf() && self.vdc1.wf()
    }

    /// Creates a generator with one base and scale per dimension.  Picking
    /// pairwise-coprime bases is the usual convention, not a requirement.
    pub fn new(base: [u32; 2], scale: [u32; 2]) -> (r: Self)
        requires
            base[0] >= 2,
            base[1] >= 2,
            pow_nat(base[0] as nat, scale[0] as nat) <= u32::MAX,
            pow_nat(base[1] as nat, scale[1] as nat) <= u32::MAX,
        ensures
            r.wf(),
            r@.0 == initial_state(base[0] as nat, scale[0] as nat),
            r@.1 == initial_state(base[1] as nat, scale[1] as nat),
    {
        Self { vdc0: VdCorput::new(base[0], scale[0]), vdc1: VdCorput::new(base[1], scale[1]) }
    }

    /// Draws the next point: each dimension advances its own counter and
    /// returns its next radical inverse.
    pub fn pop(&mut self) -> (r: [u32; 2])
        requires
            old(self).wf(),
            old(self)@.0.count < u32::MAX,
            old(self)@.1.count < u32::MAX,
        ensures
            final(self).wf(),
            final(self)@.0 == stepped(old(self)@.0),
            final(self)@.1 == stepped(old(self)@.1),
            r[0] as nat == next_value(old(self)@.0),
            r[1] as nat == next_value(old(self)@.1),
            (r[0] as nat) < pow_nat(final(self)@.0.base, final(self)@.0.scale),
            (r[1] as nat) < pow_nat(final(self)@.1.base, final(self)@.1.scale),
    {
        let d0 = self.vdc0.pop();
        let d1 = self.vdc1.pop();
        [d0, d1]
    }

    /// Resets both counters to the same seed, keeping the two dimensions
    /// synchronized by step index.
    pub fn reseed(&mut self, seed: u32)
        requires
            old(self).wf(),
        ensures
            final(self).wf(),
            final(self)@.0 == reseeded(old(self)@.0, seed as nat),
            final(self)@.1 == reseeded(old(self)@.1, seed as nat),
    {
        self.vdc0.reseed(seed);
        self.vdc1.reseed(seed);
    }
}

} // verus!
