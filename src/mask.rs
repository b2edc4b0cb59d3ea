//! Component masks: one bit per registered component kind.
use vstd::prelude::*;

verus! {

/// A set of component kinds, one bit per registry slot.
pub type ComponentsMask = u64;

/// Number of bits of a mask, and so the most component kinds a registry can hold.
pub const COMPONENTS_MASK_SIZE: usize = 64;

/// Whether bit `b` of `mask` is set.
pub open spec fn has_bit(mask: u64, b: u64) -> bool {
    b < 64 && (mask >> b) & 1 == 1
}

/// The mask with the single bit `b`.
pub open spec fn bit(b: u64) -> u64 {
    1u64 << b
}

pub proof fn lemma_bit_test(m: u64, i: u64)
    requires
        i < 64,
    ensures
        (m & bit(i) != 0) == has_bit(m, i),
{
    assert((m & (1u64 << i) != 0) == ((m >> i) & 1 == 1)) by (bit_vector)
        requires
            i < 64,
    ;
}

pub proof fn lemma_bit_single(i: u64, b: u64)
    requires
        i < 64,
    ensures
        has_bit(bit(i), b) == (b == i),
{
    if b < 64 {
        assert(((1u64 << i) >> b) & 1 == 1 <==> b == i) by (bit_vector)
            requires
                i < 64, b < 64,
        ;
    }
}

pub proof fn lemma_zero(b: u64)
    ensures
        !has_bit(0, b),
{
    assert((0u64 >> b) & 1 != 1) by (bit_vector);
}

pub proof fn lemma_or(x: u64, y: u64, b: u64)
    ensures
        has_bit(x | y, b) == (has_bit(x, b) || has_bit(y, b)),
{
    assert(((x | y) >> b) & 1 == 1 <==> ((x >> b) & 1 == 1 || (y >> b) & 1 == 1)) by (bit_vector);
}

pub proof fn lemma_and(x: u64, y: u64, b: u64)
    ensures
        has_bit(x & y, b) == (has_bit(x, b) && has_bit(y, b)),
{
    assert(((x & y) >> b) & 1 == 1 <==> ((x >> b) & 1 == 1 && (y >> b) & 1 == 1)) by (bit_vector);
}

pub proof fn lemma_and_not(x: u64, y: u64, b: u64)
    ensures
        has_bit(x & !y, b) == (has_bit(x, b) && !has_bit(y, b)),
{
    assert(((x & !y) >> b) & 1 == 1 <==> ((x >> b) & 1 == 1 && !((y >> b) & 1 == 1))) by (bit_vector);
}

proof fn lemma_ext_from(x: u64, y: u64, n: u64)
    requires
        n <= 64,
        x >> n == y >> n,
        forall|b: u64| b < n ==> has_bit(x, b) == has_bit(y, b),
    ensures
        x == y,
    decreases n,
{
    if n > 0 {
        let m = (n - 1) as u64;
        assert(has_bit(x, m) == has_bit(y, m));
        assert(x >> m == y >> m) by (bit_vector)
            requires
                m < 64, n == m + 1, x >> n == y >> n, ((x >> m) & 1 == 1) == ((y >> m) & 1 == 1),
        ;
        lemma_ext_from(x, y, m);
    } else {
        assert(x >> 0 == x && y >> 0 == y) by (bit_vector);
    }
}

/// Two masks with the same bits are equal.
pub proof fn lemma_ext(x: u64, y: u64)
    requires
        forall|b: u64| b < 64 ==> has_bit(x, b) == has_bit(y, b),
    ensures
        x == y,
{
    assert(x >> 64u64 == 0 && y >> 64u64 == 0) by (bit_vector);
    lemma_ext_from(x, y, 64);
}

/// `m & q == q` holds exactly when every bit of `q` is set in `m`.
pub proof fn lemma_covers(m: u64, q: u64)
    ensures
        (m & q == q) == (forall|b: u64| b < 64 && #[trigger] has_bit(q, b) ==> has_bit(m, b)),
{
    if forall|b: u64| b < 64 && #[trigger] has_bit(q, b) ==> has_bit(m, b) {
        assert forall|b: u64| b < 64 implies has_bit(m & q, b) == has_bit(q, b) by {
            lemma_and(m, q, b);
        }
        lemma_ext(m & q, q);
    }
    if m & q == q {
        assert forall|b: u64| b < 64 && #[trigger] has_bit(q, b) implies has_bit(m, b) by {
            lemma_and(m, q, b);
        }
    }
}

/// `m & q == 0` holds exactly when no bit of `q` is set in `m`.
pub proof fn lemma_disjoint(m: u64, q: u64)
    ensures
        (m & q == 0) == (forall|b: u64| b < 64 && #[trigger] has_bit(q, b) ==> !has_bit(m, b)),
{
    if forall|b: u64| b < 64 && #[trigger] has_bit(q, b) ==> !has_bit(m, b) {
        assert forall|b: u64| b < 64 implies has_bit(m & q, b) == has_bit(0, b) by {
            lemma_and(m, q, b);
            lemma_zero(b);
        }
        lemma_ext(m & q, 0);
    }
    if m & q == 0 {
        assert forall|b: u64| b < 64 && #[trigger] has_bit(q, b) implies !has_bit(m, b) by {
            lemma_and(m, q, b);
            lemma_zero(b);
        }
    }
}

} // verus!
