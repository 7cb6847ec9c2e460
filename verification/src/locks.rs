//! Locks and keys given by the heights of their pins: a key fits a lock
//! where in no column the two heights together exceed the room there is.

use crate::arith::{fits, one_if};
use vstd::arithmetic::overflow::CheckedU64;
use vstd::prelude::*;

verus! {

/// The room that the pin of a lock and the cut of a key share in a column.
pub const ROOM: usize = 7;

/// In every column that both have, the heights of lock and key together
/// are at most `ROOM`.
pub open spec fn fits_together(lock: Seq<usize>, key: Seq<usize>) -> bool {
    forall|i: int| 0 <= i < lock.len() && i < key.len() ==> #[trigger] lock[i] + key[i] <= ROOM
}

/// The number of the first `upto` keys that fit the lock.
pub open spec fn keys_for(lock: Seq<usize>, keys: Seq<Vec<usize>>, upto: int) -> int
    decreases upto,
{
    if upto <= 0 {
        0
    } else {
        keys_for(lock, keys, upto - 1) + one_if(fits_together(lock, keys[upto - 1]@))
    }
}

/// The number of pairs of one of the first `upto` locks and a key that
/// fits it.
pub open spec fn fitting_pairs(locks: Seq<Vec<usize>>, keys: Seq<Vec<usize>>, upto: int) -> int
    decreases upto,
{
    if upto <= 0 {
        0
    } else {
        fitting_pairs(locks, keys, upto - 1) + keys_for(locks[upto - 1]@, keys, keys.len() as int)
    }
}

/// Whether the key fits the lock.
pub fn fits_lock(lock: &Vec<usize>, key: &Vec<usize>) -> (ok: bool)
    ensures
        ok == fits_together(lock@, key@),
{
    let mut i: usize = 0;
    while i < lock.len() && i < key.len()
        invariant
            forall|j: int| 0 <= j < i ==> #[trigger] lock[j] + key[j] <= ROOM,
        decreases lock.len() - i,
    {
        if lock[i] > ROOM || key[i] > ROOM - lock[i] {
            return false;
        }
        i += 1;
    }
    true
}

/// The number of pairs of a lock and a key that fit; `None` where it does
/// not fit in 64 bits.
pub fn part1(locks: &Vec<Vec<usize>>, keys: &Vec<Vec<usize>>) -> (pairs: Option<u64>)
    ensures
        fits(pairs, fitting_pairs(locks@, keys@, locks.len() as int)),
{
    let mut pairs = CheckedU64::new(0);
    let mut l: usize = 0;
    while l < locks.len()
        invariant
            l <= locks.len(),
            pairs@ == fitting_pairs(locks@, keys@, l as int),
        decreases locks.len() - l,
    {
        let mut found = CheckedU64::new(0);
        let mut k: usize = 0;
        while k < keys.len()
            invariant
                k <= keys.len(),
                l < locks.len(),
                found@ == keys_for(locks[l as int]@, keys@, k as int),
            decreases keys.len() - k,
        {
            if fits_lock(&locks[l], &keys[k]) {
                found = found.add_value(1);
            }
            k += 1;
        }
        pairs = pairs.add_checked(&found);
        l += 1;
    }
    pairs.to_option()
}

} // verus!
