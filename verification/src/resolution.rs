//! The resolutions of a knot: every choice of one of the two smoothings at
//! each crossing, with the number of loops that it leaves.
//!
//! There are `2^n` resolutions of a knot with `n` crossings, and all of them
//! are computed: the time and the space taken double with every crossing.

use crate::diagram::{Crossing, Orientation};
use crate::knot::{Diagram, Knot};
use crate::region_counter::{lemma_combine, RegionCounter, Tally};
use bitvec::order::Lsb0;
use bitvec::vec::BitVec;
use vstd::arithmetic::power2::{
    lemma2_to64, lemma2_to64_rest, lemma_pow2_adds, lemma_pow2_strictly_increases,
    lemma_pow2_unfold, pow2,
};
use vstd::prelude::*;

verus! {

/// Bit `k` of the number `n`, the lowest being bit 0.
pub open spec fn bit_at(n: nat, k: nat) -> bool {
    (n / pow2(k)) % 2 == 1
}

/// The two regions that a smoothing of `crossing` merges. A positive
/// crossing merges left and right for a set bit, top and bottom else; a
/// negative crossing does the opposite.
pub open spec fn merged_pair(crossing: Crossing, bit: bool) -> (usize, usize) {
    match crossing.orientation {
        Orientation::Positive => if bit {
            (crossing.left, crossing.right)
        } else {
            (crossing.top, crossing.bottom)
        },
        Orientation::Negative => if bit {
            (crossing.top, crossing.bottom)
        } else {
            (crossing.left, crossing.right)
        },
    }
}

/// The tally of regions after the first `k` crossings have been smoothed as
/// the bits of `n` say.
pub open spec fn tally_after(d: Diagram, n: nat, k: nat) -> Tally
    decreases k,
{
    if k == 0 {
        Tally { count: d.regions as int, groups: Seq::empty() }
    } else {
        let pair = merged_pair(d.crossings[k - 1], bit_at(n, (k - 1) as nat));
        tally_after(d, n, (k - 1) as nat).combine(pair.0, pair.1)
    }
}

/// The number of set bits less the number of clear bits among the first `k`
/// bits of `n`.
pub open spec fn shift_after(n: nat, k: nat) -> int
    decreases k,
{
    if k == 0 {
        0
    } else {
        shift_after(n, (k - 1) as nat) + if bit_at(n, (k - 1) as nat) {
            1int
        } else {
            -1int
        }
    }
}

/// The number of loops of resolution `n`: the regions that are left, less
/// the outer one.
pub open spec fn loop_count(d: Diagram, n: nat) -> int {
    tally_after(d, n, d.crossings.len()).count - 1
}

/// The exponent shift of resolution `n`.
pub open spec fn exponent_shift(d: Diagram, n: nat) -> int {
    shift_after(n, d.crossings.len())
}

/// Each smoothing lowers the tally by one at most.
pub proof fn lemma_tally_bounds(d: Diagram, n: nat, k: nat)
    ensures
        d.regions - k <= tally_after(d, n, k).count <= d.regions,
    decreases k,
{
    if k > 0 {
        lemma_tally_bounds(d, n, (k - 1) as nat);
    }
}

/// The groups of the tally are kept apart while the crossings are smoothed.
pub proof fn lemma_tally_wf(d: Diagram, n: nat, k: nat)
    ensures
        tally_after(d, n, k).wf(),
    decreases k,
{
    if k > 0 {
        lemma_tally_wf(d, n, (k - 1) as nat);
        let pair = merged_pair(d.crossings[k - 1], bit_at(n, (k - 1) as nat));
        lemma_combine(tally_after(d, n, (k - 1) as nat), pair.0, pair.1);
    }
}

/// The shift after `k` crossings lies between `-k` and `k`.
pub proof fn lemma_shift_bounds(n: nat, k: nat)
    ensures
        -k <= shift_after(n, k) <= k,
    decreases k,
{
    if k > 0 {
        lemma_shift_bounds(n, (k - 1) as nat);
    }
}

/// `BitVec::from_slice` of `bitvec` on the 16 bytes of `n`, lowest byte first,
/// in the order `Lsb0`: the 128 bits of `n`, the lowest first.
#[verifier::external_body]
fn little_endian_bits(n: u128) -> (bits: Vec<bool>)
    ensures
        bits@.len() == 128,
        forall|k: int| 0 <= k < 128 ==> bits@[k] == bit_at(n as nat, k as nat),
{
    let bits: BitVec<u8, Lsb0> = BitVec::from_slice(&n.to_le_bytes());
    bits.iter().by_vals().collect()
}

/// The number `2^exponent`.
pub fn power_of_two(exponent: usize) -> (power: u128)
    requires
        exponent < 128,
    ensures
        power == pow2(exponent as nat),
{
    let mut power: u128 = 1;
    let mut i: usize = 0;
    proof {
        lemma2_to64();
        lemma2_to64_rest();
        lemma_pow2_adds(64, 63);
        assert(pow2(127) == 0x8000_0000_0000_0000_0000_0000_0000_0000) by (nonlinear_arith)
            requires
                pow2(64) == 0x1_0000_0000_0000_0000,
                pow2(63) == 0x8000_0000_0000_0000,
                pow2(127) == pow2(64) * pow2(63),
        ;
    }
    while i < exponent
        invariant
            i <= exponent < 128,
            power == pow2(i as nat),
            pow2(127) == 0x8000_0000_0000_0000_0000_0000_0000_0000,
        decreases exponent - i,
    {
        proof {
            lemma_pow2_unfold((i + 1) as nat);
            if i + 1 < 127 {
                lemma_pow2_strictly_increases((i + 1) as nat, 127);
            }
        }
        power = power * 2;
        i += 1;
    }
    power
}

impl Knot {
    /// Resolves the knot as the bits of `n` say: bit `k` picks the smoothing
    /// of crossing `k`. A counter of regions starts at the regions of the
    /// diagram and merges two regions at each crossing. Returns the number of
    /// loops that are left, and the number of set bits less that of clear
    /// ones.
    pub fn resolution(&self, n: u128) -> (state: (usize, i16))
        requires
            self.wf(),
            self@.crossings.len() < 128,
        ensures
            state.0 == loop_count(self@, n as nat),
            state.1 == exponent_shift(self@, n as nat),
    {
        let mut diff: i16 = 0;
        let bits = little_endian_bits(n);
        let mut counter = RegionCounter::new(self.num_regions());
        let crossings = self.num_crossings();
        let mut k: usize = 0;
        assert(counter@ == tally_after(self@, n as nat, 0));
        while k < crossings
            invariant
                k <= crossings,
                crossings == self@.crossings.len(),
                crossings < 128,
                self@.regions >= crossings + 2,
                bits@.len() == 128,
                forall|i: int| 0 <= i < 128 ==> bits@[i] == bit_at(n as nat, i as nat),
                counter@ == tally_after(self@, n as nat, k as nat),
                diff == shift_after(n as nat, k as nat),
            decreases crossings - k,
        {
            let crossing = self.crossing(k);
            let bit = bits[k];
            proof {
                lemma_tally_bounds(self@, n as nat, k as nat);
                lemma_shift_bounds(n as nat, k as nat);
            }
            if bit {
                diff += 1;
                match crossing.orientation {
                    Orientation::Positive => counter.combine(crossing.left, crossing.right),
                    Orientation::Negative => counter.combine(crossing.top, crossing.bottom),
                }
            } else {
                diff -= 1;
                match crossing.orientation {
                    Orientation::Positive => counter.combine(crossing.top, crossing.bottom),
                    Orientation::Negative => counter.combine(crossing.left, crossing.right),
                }
            }
            k += 1;
        }
        proof {
            lemma_tally_bounds(self@, n as nat, crossings as nat);
        }
        (counter.current_count() - 1, diff)
    }

    /// Iterates over all possible resolutions of the knot, returning a
    /// `Vec<(usize, i16)>` containing the number of unknots in each and the
    /// difference between the number of 0 and infinity resolutions taken.
    /// Resolution `n` stands at place `n`.
    pub fn resolutions(&self) -> (states: Vec<(usize, i16)>)
        requires
            self.wf(),
            self@.crossings.len() < 128,
        ensures
            states@.len() == pow2(self@.crossings.len()),
            forall|n: int|
                0 <= n < states@.len() ==> {
                    &&& (#[trigger] states@[n]).0 == loop_count(self@, n as nat)
                    &&& states@[n].1 == exponent_shift(self@, n as nat)
                },
    {
        let limit = power_of_two(self.num_crossings());
        let mut states: Vec<(usize, i16)> = Vec::new();
        let mut n: u128 = 0;
        while n < limit
            invariant
                n <= limit,
                limit == pow2(self@.crossings.len()),
                self.wf(),
                self@.crossings.len() < 128,
                states@.len() == n,
                forall|m: int|
                    0 <= m < states@.len() ==> {
                        &&& (#[trigger] states@[m]).0 == loop_count(self@, m as nat)
                        &&& states@[m].1 == exponent_shift(self@, m as nat)
                    },
            decreases limit - n,
        {
            let state = self.resolution(n);
            states.push(state);
            n += 1;
        }
        states
    }
}

} // verus!
