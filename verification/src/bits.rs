//! Facts about single bits of a 64-bit word.
//!
//! A word stands for the bit string whose `i`-th element is bit `i` of the
//! word, lowest bit first.

use vstd::prelude::*;
use vstd::std_specs::bits::{axiom_u64_trailing_zeros, u64_trailing_zeros};

verus! {

/// Bit `i` of `w`, counted from the lowest.
pub open spec fn bit_at(w: u64, i: u64) -> bool {
    (w >> i) & 1 == 1
}

/// The lowest `len` bits of `w` as a bit string.
pub open spec fn bits_of(w: u64, len: nat) -> Seq<bool> {
    Seq::new(len, |i: int| bit_at(w, i as u64))
}

/// The word whose lowest `cnt` bits are set.
pub open spec fn low_mask(cnt: u64) -> u64 {
    ((1u64 << cnt) - 1) as u64
}

/// Create a bitmask of which the lower `cnt` bits are set.
pub fn mask(cnt: u8) -> (m: u64)
    requires
        cnt < 64,
    ensures
        m == low_mask(cnt as u64),
{
    let one: u64 = 1;
    let shifted: u64 = one << cnt;
    proof {
        let c: u64 = cnt as u64;
        assert((1u64 << c) >= 1) by (bit_vector)
            requires
                c < 64,
        ;
    }
    shifted - 1
}

/// Masking keeps the bits below `cnt` and clears the others.
pub proof fn lemma_and_mask_bit(w: u64, cnt: u64, i: u64)
    requires
        cnt < 64,
        i < 64,
    ensures
        bit_at(w & low_mask(cnt), i) <==> (i < cnt && bit_at(w, i)),
        (w & low_mask(cnt)) >> cnt == 0,
{
    assert(((((w & (((1u64 << cnt) - 1) as u64)) >> i) & 1 == 1) <==> (i < cnt && (w >> i) & 1
        == 1)) && (w & (((1u64 << cnt) - 1) as u64)) >> cnt == 0) by (bit_vector)
        requires
            cnt < 64,
            i < 64,
    ;
}

/// A right shift by `k` moves bit `i + k` down to bit `i`.
pub proof fn lemma_shr_bit(w: u64, k: u64, i: u64)
    requires
        k < 64,
        i < 64,
    ensures
        bit_at(w >> k, i) <==> (i + k < 64 && bit_at(w, (i + k) as u64)),
{
    let j: u64 = if i + k < 64 { (i + k) as u64 } else { 0 };
    assert((((w >> k) >> i) & 1 == 1) <==> (i + k < 64 && (w >> j) & 1 == 1)) by (bit_vector)
        requires
            k < 64,
            i < 64,
            i + k < 64 ==> j == i + k,
    ;
}

/// A word whose bits from `len` on are shifted out to nothing has none of
/// them set.
pub proof fn lemma_high_clear(w: u64, len: u64, i: u64)
    requires
        len < 64,
        w >> len == 0,
        len <= i < 64,
    ensures
        !bit_at(w, i),
{
    assert((w >> i) & 1 == 0) by (bit_vector)
        requires
            len < 64,
            w >> len == 0,
            len <= i < 64,
    ;
}

/// Shifting further keeps a cleared top cleared.
pub proof fn lemma_shr_keeps_clear(w: u64, len: u64, k: u64)
    requires
        len < 64,
        k <= len,
        w >> len == 0,
    ensures
        (w >> k) >> ((len - k) as u64) == 0,
{
    let d: u64 = (len - k) as u64;
    assert((w >> k) >> d == 0) by (bit_vector)
        requires
            len < 64,
            k <= len,
            d == len - k,
            w >> len == 0,
    ;
}

/// Two different words differ in the bit that is the lowest set bit of their
/// exclusive or.
pub proof fn lemma_differing_bit(a: u64, b: u64) -> (t: u64)
    requires
        a != b,
    ensures
        t < 64,
        bit_at(a, t) != bit_at(b, t),
        forall|j: u64| j < t ==> bit_at(a, j) == bit_at(b, j),
{
    let x: u64 = a ^ b;
    assert(x != 0) by (bit_vector)
        requires
            x == a ^ b,
            a != b,
    ;
    axiom_u64_trailing_zeros(x);
    let t: u64 = u64_trailing_zeros(x) as u64;
    assert(((a >> t) & 1 == 1) != ((b >> t) & 1 == 1)) by (bit_vector)
        requires
            x == a ^ b,
            t < 64,
            (x >> t) & 1 == 1,
    ;
    assert forall|j: u64| j < t implies bit_at(a, j) == bit_at(b, j) by {
        assert((x >> j) & 1 == 0);
        assert(((a >> j) & 1 == 1) == ((b >> j) & 1 == 1)) by (bit_vector)
            requires
                x == a ^ b,
                j < 64,
                (x >> j) & 1 == 0,
        ;
    }
    t
}

} // verus!

verus! {

/// Bits that are put in above the used part of a block do not disturb that
/// part, and land where they were put.
pub proof fn lemma_merge_bit(last: u64, low: u64, used: u64, pushable: u64, i: u64)
    requires
        used < 64,
        used + pushable <= 64,
        last >> used == 0,
        pushable < 64,
        low >> pushable == 0,
        i < 64,
    ensures
        i < used ==> (bit_at(last | (low << used), i) <==> bit_at(last, i)),
        i >= used ==> (bit_at(last | (low << used), i) <==> bit_at(low, (i - used) as u64)),
        used + pushable < 64 ==> (last | (low << used)) >> ((used + pushable) as u64) == 0,
{
    let d: u64 = if i >= used { (i - used) as u64 } else { 0 };
    let e: u64 = if used + pushable < 64 { (used + pushable) as u64 } else { 0 };
    assert((i < used ==> ((((last | (low << used)) >> i) & 1 == 1) <==> ((last >> i) & 1 == 1)))
        && (i >= used ==> ((((last | (low << used)) >> i) & 1 == 1) <==> ((low >> d) & 1 == 1)))
        && (used + pushable < 64 ==> (last | (low << used)) >> e == 0)) by (bit_vector)
        requires
            used < 64,
            used + pushable <= 64,
            last >> used == 0,
            pushable < 64,
            low >> pushable == 0,
            i < 64,
            i >= used ==> d == i - used,
            used + pushable < 64 ==> e == used + pushable,
    ;
}

/// Below the length field, the exclusive or of two packed words has a bit
/// set exactly where their values differ.
pub proof fn lemma_xor_low_bit(a: u64, b: u64, i: u64)
    requires
        i < 56,
    ensures
        bit_at(a ^ b, i) <==> (bit_at(a & 0x00ff_ffff_ffff_ffff, i) != bit_at(
            b & 0x00ff_ffff_ffff_ffff,
            i,
        )),
{
    assert((((a ^ b) >> i) & 1 == 1) <==> ((((a & 0x00ff_ffff_ffff_ffff) >> i) & 1 == 1) != (((b
        & 0x00ff_ffff_ffff_ffff) >> i) & 1 == 1))) by (bit_vector)
        requires
            i < 56,
    ;
}

/// Every bit of a word is either set or clear, and nothing is set in zero.
pub proof fn lemma_bit_values(w: u64, i: u64)
    requires
        i < 64,
    ensures
        (w >> i) & 1 == 0 || (w >> i) & 1 == 1,
        !bit_at(0, i),
        w >> 0 == w,
{
    assert(((w >> i) & 1 == 0 || (w >> i) & 1 == 1) && (0u64 >> i) & 1 == 0 && w >> 0 == w)
        by (bit_vector)
        requires
            i < 64,
    ;
}

} // verus!
