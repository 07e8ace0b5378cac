//! 64-bit words read as sets of small indices, and the facts about `|`, `& !`,
//! shifts and lowest-bit clearing that the coupling topology relies on.

use vstd::prelude::*;
use vstd::std_specs::bits::u64_trailing_zeros;
use vstd::std_specs::bits::axiom_u64_trailing_zeros;

verus! {

/// Bit `j` of `x` is set.
pub open spec fn has_bit(x: u64, j: u64) -> bool {
    j < 64 && (x >> j) & 1u64 == 1u64
}

/// Every set bit of `x` is below `n`.
pub open spec fn bits_below(x: u64, n: nat) -> bool {
    forall|j: u64| #[trigger] has_bit(x, j) ==> j < n
}

/// Every set bit of `a` is also set in `b`.
pub open spec fn is_subset(a: u64, b: u64) -> bool {
    a & !b == 0u64
}

pub proof fn lemma_or_bit(a: u64, b: u64, j: u64)
    ensures
        has_bit(a | b, j) == (has_bit(a, j) || has_bit(b, j)),
{
    assert((j < 64 && ((a | b) >> j) & 1u64 == 1u64) == ((j < 64 && (a >> j) & 1u64 == 1u64) || (
    j < 64 && (b >> j) & 1u64 == 1u64))) by (bit_vector);
}

pub proof fn lemma_and_not_bit(a: u64, b: u64, j: u64)
    ensures
        has_bit(a & !b, j) == (has_bit(a, j) && !has_bit(b, j)),
{
    assert((j < 64 && ((a & !b) >> j) & 1u64 == 1u64) == ((j < 64 && (a >> j) & 1u64 == 1u64) && !(
    j < 64 && (b >> j) & 1u64 == 1u64))) by (bit_vector);
}

pub proof fn lemma_single_bit(s: u64, j: u64)
    requires
        s < 64,
    ensures
        has_bit(1u64 << s, j) == (j == s),
{
    assert(s < 64 ==> ((j < 64 && ((1u64 << s) >> j) & 1u64 == 1u64) == (j == s))) by (bit_vector);
}

pub proof fn lemma_zero_has_no_bit(j: u64)
    ensures
        !has_bit(0u64, j),
{
    assert(!(j < 64 && (0u64 >> j) & 1u64 == 1u64)) by (bit_vector);
}

pub proof fn lemma_subset_bit(a: u64, b: u64, j: u64)
    requires
        is_subset(a, b),
        has_bit(a, j),
    ensures
        has_bit(b, j),
{
    assert(a & !b == 0u64 && j < 64 && (a >> j) & 1u64 == 1u64 ==> (b >> j) & 1u64 == 1u64)
        by (bit_vector);
}

/// A subset is numerically no larger; a proper subset is strictly smaller.
pub proof fn lemma_subset_le(a: u64, b: u64)
    requires
        is_subset(a, b),
    ensures
        a <= b,
        a != b ==> a < b,
{
    assert(a & !b == 0u64 ==> a <= b) by (bit_vector);
    assert(a & !b == 0u64 && a != b ==> a < b) by (bit_vector);
}

pub proof fn lemma_subset_refl(a: u64)
    ensures
        is_subset(a, a),
{
    assert(a & !a == 0u64) by (bit_vector);
}

pub proof fn lemma_subset_or(a: u64, b: u64, c: u64)
    requires
        is_subset(a, b),
    ensures
        is_subset(a, b | c),
        is_subset(c, b | c),
{
    assert(a & !b == 0u64 ==> a & !(b | c) == 0u64) by (bit_vector);
    assert(c & !(b | c) == 0u64) by (bit_vector);
}

pub proof fn lemma_subset_trans(a: u64, b: u64, c: u64)
    requires
        is_subset(a, b),
        is_subset(b, c),
    ensures
        is_subset(a, c),
{
    assert(a & !b == 0u64 && b & !c == 0u64 ==> a & !c == 0u64) by (bit_vector);
}

/// Facts about the lowest set bit of a nonzero word and about clearing it with
/// `x & (x - 1)`.
pub proof fn lemma_lowest_bit(x: u64)
    requires
        x != 0,
    ensures
        u64_trailing_zeros(x) < 64,
        has_bit(x, u64_trailing_zeros(x) as u64),
        forall|j: u64| #[trigger] has_bit(x, j) ==> u64_trailing_zeros(x) <= j,
        forall|j: u64|
            #[trigger] has_bit(x & ((x - 1) as u64), j) == (has_bit(x, j) && j != u64_trailing_zeros(
                x,
            ) as u64),
        x & ((x - 1) as u64) < x,
        is_subset(x & ((x - 1) as u64), x),
{
    axiom_u64_trailing_zeros(x);
    let t = u64_trailing_zeros(x) as u64;
    assert(t < 64);
    assert((x >> t) & 1u64 == 1u64);
    let sh: u64 = (64 - t) as u64;
    assert(x << sh == 0u64);
    assert forall|j: u64| #[trigger] has_bit(x, j) implies t <= j by {
        assert(x != 0 && t < 64 && x << sh == 0u64 && sh == 64 - t && j < 64 && (x >> j) & 1u64
            == 1u64 ==> t <= j) by (bit_vector);
    }
    assert forall|j: u64|
        #[trigger] has_bit(x & ((x - 1) as u64), j) == (has_bit(x, j) && j != t) by {
        assert(x != 0 && t < 64 && (x >> t) & 1u64 == 1u64 && x << sh == 0u64 && sh == 64 - t ==> ((
        j < 64 && ((x & ((x - 1) as u64)) >> j) & 1u64 == 1u64) == ((j < 64 && (x >> j) & 1u64
            == 1u64) && j != t))) by (bit_vector);
    }
    assert(x != 0 ==> x & ((x - 1) as u64) < x) by (bit_vector);
    assert((x & ((x - 1) as u64)) & !x == 0u64) by (bit_vector);
}

/// If every set bit of `a` is set in `b`, then `a` is a subset of `b`.
pub proof fn lemma_subset_from_bits(a: u64, b: u64)
    requires
        forall|j: u64| #[trigger] has_bit(a, j) ==> has_bit(b, j),
    ensures
        is_subset(a, b),
{
    let d = a & !b;
    if d != 0 {
        lemma_lowest_bit(d);
        let t = u64_trailing_zeros(d) as u64;
        lemma_and_not_bit(a, b, t);
        assert(has_bit(a, t));
    }
}

/// Two words with the same set bits are equal.
pub proof fn lemma_bits_ext(a: u64, b: u64)
    requires
        forall|j: u64| #[trigger] has_bit(a, j) == has_bit(b, j),
    ensures
        a == b,
{
    lemma_subset_from_bits(a, b);
    lemma_subset_from_bits(b, a);
    assert(a & !b == 0u64 && b & !a == 0u64 ==> a == b) by (bit_vector);
}

/// The set bits of `b`, in ascending order, as axis indices.
pub fn bits_to_vec(b: u64) -> (v: Vec<u16>)
    ensures
        forall|i: int, j: int| 0 <= i < j < v@.len() ==> v@[i] < v@[j],
        forall|i: int| 0 <= i < v@.len() ==> has_bit(b, v@[i] as u64),
        forall|j: u64| has_bit(b, j) ==> v@.contains(j as u16),
{
    let mut v: Vec<u16> = Vec::new();
    let mut x = b;
    proof {
        lemma_subset_refl(b);
    }
    while x != 0
        invariant
            is_subset(x, b),
            forall|i: int, j: int| 0 <= i < j < v@.len() ==> v@[i] < v@[j],
            forall|i: int| 0 <= i < v@.len() ==> has_bit(b, v@[i] as u64),
            forall|i: int, j: u64|
                #![trigger v@[i], has_bit(x, j)]
                0 <= i < v@.len() && has_bit(x, j) ==> (v@[i] as u64) < j,
            forall|j: u64| #[trigger] has_bit(b, j) ==> has_bit(x, j) || v@.contains(j as u16),
        decreases x,
    {
        proof {
            lemma_lowest_bit(x);
        }
        let t = x.trailing_zeros();
        let ghost old_v = v@;
        let ghost old_x = x;
        proof {
            lemma_subset_bit(x, b, t as u64);
        }
        v.push(t as u16);
        x = x & (x - 1);
        proof {
            lemma_subset_trans(x, old_x, b);
            assert forall|i: int, j: int| 0 <= i < j < v@.len() implies v@[i] < v@[j] by {
                if j == v@.len() - 1 && i < j {
                    assert(has_bit(old_x, t as u64));
                }
            }
            assert forall|i: int, j: u64|
                #![trigger v@[i], has_bit(x, j)]
                0 <= i < v@.len() && has_bit(x, j) implies (v@[i] as u64) < j by {
                assert(has_bit(old_x, j));
                if i < v@.len() - 1 {
                    assert(v@[i] == old_v[i]);
                }
            }
            assert forall|j: u64| #[trigger] has_bit(b, j) implies has_bit(x, j) || v@.contains(
                j as u16,
            ) by {
                if !has_bit(x, j) {
                    if has_bit(old_x, j) {
                        assert(j == t as u64);
                        assert(v@[v@.len() - 1] == j as u16);
                    } else {
                        let k = choose|k: int| 0 <= k < old_v.len() && old_v[k] == j as u16;
                        assert(v@[k] == j as u16);
                    }
                }
            }
        }
    }
    proof {
        assert forall|j: u64| has_bit(b, j) implies v@.contains(j as u16) by {
            lemma_zero_has_no_bit(j);
        }
    }
    v
}

} // verus!
