use vstd::prelude::*;

verus! {

/// Whether bit `i` of `x` is set; positions outside `0..64` are never set.
pub open spec fn bit(x: u64, i: int) -> bool {
    0 <= i < 64 && (x >> (i as u64)) & 1u64 == 1u64
}

pub proof fn lemma_bit_and(x: u64, y: u64, i: int)
    ensures
        bit(x & y, i) == (bit(x, i) && bit(y, i)),
{
    if 0 <= i < 64 {
        let p = i as u64;
        assert(((x & y) >> p) & 1u64 == 1u64 <==> ((x >> p) & 1u64 == 1u64 && (y >> p) & 1u64
            == 1u64)) by (bit_vector);
    }
}

pub proof fn lemma_bit_or(x: u64, y: u64, i: int)
    ensures
        bit(x | y, i) == (bit(x, i) || bit(y, i)),
{
    if 0 <= i < 64 {
        let p = i as u64;
        assert(((x | y) >> p) & 1u64 == 1u64 <==> ((x >> p) & 1u64 == 1u64 || (y >> p) & 1u64
            == 1u64)) by (bit_vector);
    }
}

pub proof fn lemma_bit_xor(x: u64, y: u64, i: int)
    ensures
        bit(x ^ y, i) == (0 <= i < 64 && bit(x, i) != bit(y, i)),
{
    if 0 <= i < 64 {
        let p = i as u64;
        assert(((x ^ y) >> p) & 1u64 == 1u64 <==> ((x >> p) & 1u64 == 1u64) != ((y >> p) & 1u64
            == 1u64)) by (bit_vector);
    }
}

pub proof fn lemma_bit_not(x: u64, i: int)
    ensures
        bit(!x, i) == (0 <= i < 64 && !bit(x, i)),
{
    if 0 <= i < 64 {
        let p = i as u64;
        assert(p < 64 ==> (((!x) >> p) & 1u64 == 1u64 <==> !((x >> p) & 1u64 == 1u64)))
            by (bit_vector);
    }
}

pub proof fn lemma_bit_shr(x: u64, k: u64, i: int)
    requires
        k < 64,
    ensures
        bit(x >> k, i) == (0 <= i && bit(x, i + k)),
{
    if 0 <= i < 64 {
        let p = i as u64;
        if i + k < 64 {
            assert(p + k < 64 ==> ((x >> k) >> p) & 1u64 == (x >> (p + k) as u64) & 1u64)
                by (bit_vector);
        } else {
            assert(p < 64 && k < 64 && p + k >= 64 ==> ((x >> k) >> p) & 1u64 == 0u64)
                by (bit_vector);
        }
    }
}

pub proof fn lemma_bit_shl(x: u64, k: u64, i: int)
    requires
        k < 64,
    ensures
        bit(x << k, i) == (k <= i < 64 && bit(x, i - k)),
{
    if 0 <= i < 64 {
        let p = i as u64;
        if k <= i {
            assert(k <= p && p < 64 ==> ((x << k) >> p) & 1u64 == (x >> (p - k) as u64) & 1u64)
                by (bit_vector);
        } else {
            assert(p < k ==> ((x << k) >> p) & 1u64 == 0u64) by (bit_vector);
        }
    }
}

/// A word is zero exactly when none of its bits is set.
pub proof fn lemma_nonzero_iff_bit(x: u64)
    ensures
        x != 0 <==> exists|i: int| #[trigger] bit(x, i),
{
    vstd::std_specs::bits::axiom_u64_trailing_zeros(x);
    if x != 0 {
        let t = vstd::std_specs::bits::u64_trailing_zeros(x) as int;
        assert(bit(x, t));
    } else {
        assert forall|i: int| !#[trigger] bit(x, i) by {
            if 0 <= i < 64 {
                let p = i as u64;
                assert(x == 0 ==> (x >> p) & 1u64 == 0u64) by (bit_vector);
            }
        }
    }
}

/// The single set bit of `1 << k`.
pub proof fn lemma_bit_single(k: u64, i: int)
    requires
        k < 64,
    ensures
        bit(1u64 << k, i) == (i == k),
{
    if 0 <= i < 64 {
        let p = i as u64;
        assert(k < 64 && p < 64 ==> (((1u64 << k) >> p) & 1u64 == 1u64 <==> p == k))
            by (bit_vector);
    }
}

} // verus!
