//! Bit-level view of a 64-bit fingerprint.
//!
//! A fingerprint is read as 64 bits, position 0 being the least significant
//! one. The trie consumes the bits in that order, so a prefix of a path is the
//! fingerprint with its upper bits cleared.

use vstd::prelude::*;

verus! {

/// Bit `i` of `h`, counted from the least significant bit.
pub open spec fn bit(h: u64, i: nat) -> bool {
    (h >> (i as u64)) & 1 == 1
}

/// `h` with every bit at position `k` or above cleared: its first `k` bits.
pub open spec fn low_bits(h: u64, k: nat) -> u64 {
    if k >= 64 {
        h
    } else {
        h & !(u64::MAX << (k as u64))
    }
}

/// How many of the first `k` bit positions differ between `a` and `b`.
pub open spec fn differing(a: u64, b: u64, k: nat) -> nat
    decreases k,
{
    if k == 0 {
        0
    } else {
        let rest = differing(a, b, (k - 1) as nat);
        if bit(a, (k - 1) as nat) != bit(b, (k - 1) as nat) {
            rest + 1
        } else {
            rest
        }
    }
}

/// Hamming distance: the number of bit positions in which `a` and `b` differ.
pub open spec fn hamming(a: u64, b: u64) -> nat {
    differing(a, b, 64)
}

/// Reads bit `pos` of `h`.
pub fn get_bit(h: u64, pos: u8) -> (b: bool)
    requires
        pos < 64,
    ensures
        b == bit(h, pos as nat),
{
    (h >> (pos as u64)) & 1 == 1
}

/// Returns `h` with bit `pos` set.
pub fn with_bit(h: u64, pos: u8) -> (r: u64)
    requires
        pos < 64,
    ensures
        r == h | (1u64 << (pos as u64)),
        bit(r, pos as nat),
{
    proof {
        lemma_bit_of_set(h, pos as nat, pos as nat);
    }
    h | (1u64 << (pos as u64))
}

/// The Hamming distance between `a` and `b`.
pub fn distance(a: u64, b: u64) -> (d: u8)
    ensures
        d == hamming(a, b),
{
    let mut d: u8 = 0;
    let mut pos: u8 = 0;
    while pos < 64
        invariant
            pos <= 64,
            d == differing(a, b, pos as nat),
            d <= pos,
        decreases 64 - pos,
    {
        if get_bit(a, pos) != get_bit(b, pos) {
            d = d + 1;
        }
        pos = pos + 1;
    }
    d
}

/// No bits are left when none is kept.
pub proof fn lemma_low_bits_none(h: u64)
    ensures
        low_bits(h, 0) == 0,
{
    assert(h & !(u64::MAX << 0u64) == 0) by (bit_vector);
}

/// Keeping one more bit adds that bit, if it is set.
pub proof fn lemma_low_bits_step(h: u64, k: nat)
    requires
        k < 64,
    ensures
        low_bits(h, k + 1) == if bit(h, k) {
            low_bits(h, k) | (1u64 << (k as u64))
        } else {
            low_bits(h, k)
        },
{
    let s: u64 = k as u64;
    if k == 63 {
        assert(h == if (h >> 63u64) & 1 == 1 {
            (h & !(u64::MAX << 63u64)) | (1u64 << 63u64)
        } else {
            h & !(u64::MAX << 63u64)
        }) by (bit_vector);
    } else {
        let t: u64 = (k + 1) as u64;
        assert(h & !(u64::MAX << t) == if (h >> s) & 1 == 1 {
            (h & !(u64::MAX << s)) | (1u64 << s)
        } else {
            h & !(u64::MAX << s)
        }) by (bit_vector)
            requires
                s < 63,
                t == s + 1,
        ;
    }
}

/// The first `k` bits keep the bits below `k` and have none at or above it.
pub proof fn lemma_bit_of_low_bits(h: u64, k: nat, j: nat)
    requires
        j < 64,
    ensures
        bit(low_bits(h, k), j) == (j < k && bit(h, j)),
{
    if k < 64 {
        let s: u64 = k as u64;
        let t: u64 = j as u64;
        assert((((h & !(u64::MAX << s)) >> t) & 1 == 1) == (t < s && (h >> t) & 1 == 1))
            by (bit_vector)
            requires
                s < 64,
                t < 64,
        ;
    }
}

/// Setting bit `p` changes that bit and no other.
pub proof fn lemma_bit_of_set(h: u64, p: nat, j: nat)
    requires
        p < 64,
        j < 64,
    ensures
        bit(h | (1u64 << (p as u64)), j) == (bit(h, j) || j == p),
{
    let s: u64 = p as u64;
    let t: u64 = j as u64;
    assert((((h | (1u64 << s)) >> t) & 1 == 1) == ((h >> t) & 1 == 1 || t == s)) by (bit_vector)
        requires
            s < 64,
            t < 64,
    ;
}

/// Setting bit `k` leaves the first `k` bits as they were.
pub proof fn lemma_low_bits_of_set(h: u64, k: nat)
    requires
        k < 64,
    ensures
        low_bits(h | (1u64 << (k as u64)), k) == low_bits(h, k),
{
    let s: u64 = k as u64;
    assert((h | (1u64 << s)) & !(u64::MAX << s) == h & !(u64::MAX << s)) by (bit_vector)
        requires
            s < 64,
    ;
}

/// Values that agree on their first `k` bits agree on any shorter prefix.
pub proof fn lemma_low_bits_shorter(a: u64, b: u64, k: nat, j: nat)
    requires
        j <= k,
        low_bits(a, k) == low_bits(b, k),
    ensures
        low_bits(a, j) == low_bits(b, j),
{
    if j < 64 {
        let t: u64 = j as u64;
        if k < 64 {
            let s: u64 = k as u64;
            assert(a & !(u64::MAX << t) == b & !(u64::MAX << t)) by (bit_vector)
                requires
                    t <= s,
                    s < 64,
                    a & !(u64::MAX << s) == b & !(u64::MAX << s),
            ;
        }
    }
}

/// Values that agree on their first `k` bits agree on each bit below `k`.
pub proof fn lemma_low_bits_same_bit(a: u64, b: u64, k: nat, j: nat)
    requires
        j < k,
        j < 64,
        low_bits(a, k) == low_bits(b, k),
    ensures
        bit(a, j) == bit(b, j),
{
    lemma_bit_of_low_bits(a, k, j);
    lemma_bit_of_low_bits(b, k, j);
}

/// A prefix of a prefix is the shorter prefix.
pub proof fn lemma_low_bits_twice(h: u64, k: nat, j: nat)
    requires
        j <= k,
    ensures
        low_bits(low_bits(h, k), j) == low_bits(h, j),
{
    if k < 64 {
        let s: u64 = k as u64;
        let t: u64 = j as u64;
        assert((h & !(u64::MAX << s)) & !(u64::MAX << t) == h & !(u64::MAX << t)) by (bit_vector)
            requires
                t <= s,
                s < 64,
        ;
    }
}

/// The count of differing positions among the first `k` is at most `k`.
pub proof fn lemma_differing_bound(a: u64, b: u64, k: nat)
    ensures
        differing(a, b, k) <= k,
    decreases k,
{
    if k > 0 {
        lemma_differing_bound(a, b, (k - 1) as nat);
    }
}

/// Looking at more positions never lowers the count.
pub proof fn lemma_differing_grows(a: u64, b: u64, j: nat, k: nat)
    requires
        j <= k,
    ensures
        differing(a, b, j) <= differing(a, b, k),
    decreases k,
{
    if j < k {
        lemma_differing_grows(a, b, j, (k - 1) as nat);
    }
}

/// The count over the first `k` positions depends on the first `k` bits only.
pub proof fn lemma_differing_prefix(a: u64, c: u64, b: u64, k: nat)
    requires
        k <= 64,
        low_bits(a, k) == low_bits(c, k),
    ensures
        differing(a, b, k) == differing(c, b, k),
    decreases k,
{
    if k > 0 {
        let j = (k - 1) as nat;
        lemma_low_bits_shorter(a, c, k, j);
        lemma_differing_prefix(a, c, b, j);
        lemma_low_bits_same_bit(a, c, k, j);
    }
}

/// Values with no differing position among the first `k` share their first `k` bits.
pub proof fn lemma_differing_none(a: u64, b: u64, k: nat)
    requires
        k <= 64,
        differing(a, b, k) == 0,
    ensures
        low_bits(a, k) == low_bits(b, k),
    decreases k,
{
    if k == 0 {
        lemma_low_bits_none(a);
        lemma_low_bits_none(b);
    } else {
        let j = (k - 1) as nat;
        lemma_differing_none(a, b, j);
        lemma_low_bits_step(a, j);
        lemma_low_bits_step(b, j);
    }
}

/// A value differs from itself nowhere.
pub proof fn lemma_differing_self(a: u64, k: nat)
    ensures
        differing(a, a, k) == 0,
    decreases k,
{
    if k > 0 {
        lemma_differing_self(a, (k - 1) as nat);
    }
}

/// The Hamming distance is at most 64, and is zero exactly between equal values.
pub proof fn lemma_hamming_range(a: u64, b: u64)
    ensures
        hamming(a, b) <= 64,
        hamming(a, b) == 0 <==> a == b,
{
    lemma_differing_bound(a, b, 64);
    if a == b {
        lemma_differing_self(a, 64);
    }
    if hamming(a, b) == 0 {
        lemma_differing_none(a, b, 64);
    }
}

} // verus!
