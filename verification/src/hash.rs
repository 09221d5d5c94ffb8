//! The ring's hash function: 64-bit FNV-1a over the decimal digits of the
//! item, least significant digit first. Deterministic by construction: the
//! result is a pure function of the item alone.

use vstd::prelude::*;

verus! {

/// FNV-1a 64-bit offset basis.
pub const FNV_OFFSET: u64 = 0xcbf29ce484222325;

/// FNV-1a 64-bit prime.
pub const FNV_PRIME: u64 = 0x100000001b3;

/// One FNV-1a round: fold one byte into the accumulator.
pub open spec fn fnv_step(acc: u64, byte: u8) -> u64 {
    vstd::wrapping::u64_specs::wrapping_mul(acc ^ (byte as u64), FNV_PRIME)
}

/// Fold the decimal digits of `n` into `acc`, least significant first,
/// each as its ASCII byte.
pub open spec fn fold_digits(n: u64, acc: u64) -> u64
    decreases n,
{
    if n == 0 {
        acc
    } else {
        fold_digits(n / 10, fnv_step(acc, (0x30 + n % 10) as u8))
    }
}

/// The hash a ring files an item under: FNV-1a over the item's decimal
/// digits. Zero hashes as the single digit `0`.
pub open spec fn hash_of(item: u64) -> u64 {
    if item == 0 {
        fnv_step(FNV_OFFSET, 0x30)
    } else {
        fold_digits(item, FNV_OFFSET)
    }
}

/// Computes `hash_of(item)`. Calling it twice on the same item gives the
/// same result: the contract pins the result to a function of the item.
pub fn hash_value(item: u64) -> (r: u64)
    ensures
        r == hash_of(item),
{
    if item == 0 {
        return (FNV_OFFSET ^ 0x30).wrapping_mul(FNV_PRIME);
    }
    let mut n: u64 = item;
    let mut acc: u64 = FNV_OFFSET;
    while n > 0
        invariant
            fold_digits(n, acc) == hash_of(item),
        decreases n,
    {
        let digit: u64 = 0x30 + n % 10;
        proof {
            assert(digit == ((0x30 + n % 10) as u8) as u64);
        }
        acc = (acc ^ digit).wrapping_mul(FNV_PRIME);
        n = n / 10;
    }
    acc
}

} // verus!
