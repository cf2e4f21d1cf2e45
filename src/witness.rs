use vstd::prelude::*;
use rand::rngs::StdRng;
use crate::batch::{DRAW_LIMIT, distinct};
use crate::random::random_range;

verus! {

/// A witness set: `count` distinct bases, each in `[lo, hi)`.
pub open spec fn valid_witnesses(bases: Seq<u64>, lo: int, hi: int, count: nat) -> bool {
    bases.len() == count && distinct(bases) && forall|i: int| 0 <= i < bases.len() ==> lo <= #[trigger] bases[i] < hi
}

/// Whether `x` occurs in `v`.
pub fn contains(v: &Vec<u64>, x: u64) -> (r: bool)
    ensures
        r == v@.contains(x),
{
    let mut i: usize = 0;
    while i < v.len()
        invariant
            i <= v@.len(),
            forall|k: int| 0 <= k < i ==> v@[k] != x,
        decreases v@.len() - i,
    {
        if v[i] == x {
            assert(v@[i as int] == x);
            return true;
        }
        i = i + 1;
    }
    false
}

/// Adds base `b` to the set unless it is already there; returns whether it was added.
pub fn add_base(bases: &mut Vec<u64>, b: u64) -> (added: bool)
    ensures
        added == !old(bases)@.contains(b),
        added ==> final(bases)@ == old(bases)@.push(b),
        !added ==> final(bases)@ == old(bases)@,
{
    if contains(bases, b) {
        false
    } else {
        bases.push(b);
        true
    }
}

/// Draws bases from `[lo, hi)` until `count` distinct ones are collected, or gives up
/// after `DRAW_LIMIT` draws in a row that repeat a base already drawn.
pub fn draw_witnesses(rng: &mut StdRng, lo: u64, hi: u64, count: usize) -> (r: Option<Vec<u64>>)
    requires
        lo < hi,
    ensures
        r matches Some(v) ==> valid_witnesses(v@, lo as int, hi as int, count as nat),
{
    let mut bases: Vec<u64> = Vec::new();
    let mut repeats: u64 = 0;
    while bases.len() < count
        invariant
            lo < hi,
            bases@.len() <= count,
            repeats <= DRAW_LIMIT,
            distinct(bases@),
            forall|i: int| 0 <= i < bases@.len() ==> lo <= #[trigger] bases@[i] < hi,
        decreases count - bases@.len(), DRAW_LIMIT - repeats,
    {
        if repeats >= DRAW_LIMIT {
            return None;
        }
        let b = random_range(rng, lo, hi);
        let ghost before = bases@;
        if add_base(&mut bases, b) {
            repeats = 0;
            proof {
                assert forall|i: int, j: int| 0 <= i < bases@.len() && 0 <= j < bases@.len() && i != j implies bases@[i] != bases@[j] by {
                    if i < before.len() && j < before.len() {
                        assert(bases@[i] == before[i] && bases@[j] == before[j]);
                    } else if i < before.len() {
                        assert(bases@[i] == before[i]);
                        assert(before.contains(bases@[i]));
                    } else if j < before.len() {
                        assert(bases@[j] == before[j]);
                        assert(before.contains(bases@[j]));
                    }
                }
                assert forall|i: int| 0 <= i < bases@.len() implies lo <= #[trigger] bases@[i] < hi by {
                    if i < before.len() {
                        assert(bases@[i] == before[i]);
                    }
                }
            }
        } else {
            repeats = repeats + 1;
        }
    }
    Some(bases)
}

} // verus!
