//! Bit arithmetic on node labels.
//!
//! A hypercube of dimension `d` has the labels `0 .. 2^d`. Two labels are
//! neighbours when they differ in exactly one of their low `d` bits.

use vstd::arithmetic::power2::pow2;
use vstd::bits::lemma_u16_shl_is_mul;
use vstd::prelude::*;

verus! {

/// The number of bits of a label.
pub const LABEL_BITS: u16 = 16;

/// The largest dimension whose labels and node count fit the label type.
pub const MAX_DIMENSION: u16 = 15;

/// The number of nodes of a hypercube of dimension `d`.
pub open spec fn node_count(d: u16) -> nat {
    pow2(d as nat)
}

/// Whether `label` names a node of a hypercube of dimension `d`.
pub open spec fn is_label(d: u16, label: int) -> bool {
    0 <= label < node_count(d)
}

/// The label reached from `label` by flipping bit `k`.
pub open spec fn flip(label: u16, k: u16) -> u16 {
    label ^ (1u16 << k)
}

/// Whether `a` and `b` differ in exactly one bit, at a position below `d`.
pub open spec fn adjacent(d: u16, a: u16, b: u16) -> bool {
    exists|k: u16| k < d && b == #[trigger] flip(a, k)
}

/// Below the largest dimension, the node count is a single set bit.
pub proof fn lemma_node_count_is_shift(d: u16)
    requires
        d <= MAX_DIMENSION,
    ensures
        node_count(d) == (1u16 << d),
        node_count(d) <= 0x8000,
{
    vstd::bits::lemma_u16_pow2_no_overflow(d as nat);
    lemma_u16_shl_is_mul(1u16, d);
    assert((1u16 << d) <= 0x8000u16) by (bit_vector)
        requires
            d <= 15,
    ;
}

/// Flipping a bit below `d` leads from a label to another label.
pub proof fn lemma_flip_is_label(d: u16, label: u16, k: u16)
    requires
        d <= MAX_DIMENSION,
        k < d,
        is_label(d, label as int),
    ensures
        is_label(d, flip(label, k) as int),
        flip(label, k) != label,
{
    lemma_node_count_is_shift(d);
    assert(label < (1u16 << d) && k < d && d <= 15 ==> (label ^ (1u16 << k)) < (1u16 << d) && (label
        ^ (1u16 << k)) != label) by (bit_vector);
}

/// Flipping the same bit twice leads back.
pub proof fn lemma_flip_twice(label: u16, k: u16)
    requires
        k < 16,
    ensures
        flip(flip(label, k), k) == label,
{
    assert(((label ^ (1u16 << k)) ^ (1u16 << k)) == label) by (bit_vector);
}

/// Flipping different bits leads to different labels.
pub proof fn lemma_flip_distinct(label: u16, j: u16, k: u16)
    requires
        j < 16,
        k < 16,
        j != k,
    ensures
        flip(label, j) != flip(label, k),
{
    assert(j < 16 && k < 16 && j != k ==> (label ^ (1u16 << j)) != (label ^ (1u16 << k)))
        by (bit_vector);
}

/// A label and its flip differ in bit `k` and in no other.
pub proof fn lemma_flip_one_bit(label: u16, k: u16)
    requires
        k < 16,
    ensures
        label ^ flip(label, k) == 1u16 << k,
{
    assert((label ^ (label ^ (1u16 << k))) == (1u16 << k)) by (bit_vector);
}

/// Adjacency is symmetric.
pub proof fn lemma_adjacent_symmetric(d: u16, a: u16, b: u16)
    requires
        d <= 16,
    ensures
        adjacent(d, a, b) <==> adjacent(d, b, a),
{
    if adjacent(d, a, b) {
        let k = choose|k: u16| k < d && b == #[trigger] flip(a, k);
        lemma_flip_twice(a, k);
    }
    if adjacent(d, b, a) {
        let k = choose|k: u16| k < d && a == #[trigger] flip(b, k);
        lemma_flip_twice(b, k);
    }
}

/// Flips bit `k` of `label`.
pub fn flip_bit(label: u16, k: u16) -> (r: u16)
    requires
        k < LABEL_BITS,
    ensures
        r == flip(label, k),
{
    label ^ (1u16 << k)
}

} // verus!
