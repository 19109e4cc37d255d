//! Helpers for 64-bit masks.
//!
//! Every per-qubit flag of the register (classical value, superposition,
//! group membership) is kept as one bit of a `u64` mask, so all state
//! reasoning reduces to statements about single bits of such masks.

use vstd::prelude::*;

verus! {

/// True when bit `i` of `x` is set; the register only reads bits `i < 64`.
pub open spec fn bit64(x: u64, i: u64) -> bool {
    x & (1u64 << i) != 0
}

/// No bit of the zero mask is set.
pub proof fn lemma_bit64_zero()
    ensures
        forall|j: u64| j < 64 ==> !(#[trigger] bit64(0u64, j)),
{
    assert forall|j: u64| j < 64 implies !(#[trigger] bit64(0u64, j)) by {
        assert(0u64 & (1u64 << j) == 0) by (bit_vector);
    }
}

/// Every bit below 64 of the all-ones mask is set.
pub proof fn lemma_bit64_ones()
    ensures
        forall|j: u64| j < 64 ==> #[trigger] bit64(u64::MAX, j),
{
    assert forall|j: u64| j < 64 implies #[trigger] bit64(u64::MAX, j) by {
        assert(0xffff_ffff_ffff_ffffu64 & (1u64 << j) != 0) by (bit_vector)
            requires
                j < 64,
        ;
    }
}

/// A bit of a union is set exactly when it is set on either side.
pub proof fn lemma_bit64_or(x: u64, y: u64)
    ensures
        forall|j: u64| j < 64 ==> #[trigger] bit64(x | y, j) == (bit64(x, j) || bit64(y, j)),
{
    assert forall|j: u64| j < 64 implies #[trigger] bit64(x | y, j) == (bit64(x, j) || bit64(y, j)) by {
        assert(((x | y) & (1u64 << j) != 0) == ((x & (1u64 << j) != 0) || (y & (1u64 << j) != 0)))
            by (bit_vector);
    }
}

/// Reads bit `i` of `x`.
pub fn get_bit(x: u64, i: u64) -> (r: bool)
    requires
        i < 64,
    ensures
        r == bit64(x, i),
{
    x & (1u64 << i) != 0
}

/// Returns `x` with bit `i` forced to `b` and every other bit kept.
pub fn with_bit(x: u64, i: u64, b: bool) -> (r: u64)
    requires
        i < 64,
    ensures
        forall|j: u64| j < 64 ==> #[trigger] bit64(r, j) == (if j == i {
            b
        } else {
            bit64(x, j)
        }),
{
    if b {
        let r = x | (1u64 << i);
        proof {
            assert forall|j: u64| j < 64 implies #[trigger] bit64(r, j) == (if j == i {
                true
            } else {
                bit64(x, j)
            }) by {
                assert(((x | (1u64 << i)) & (1u64 << j) != 0) == (j == i || x & (1u64 << j) != 0))
                    by (bit_vector)
                    requires
                        i < 64 && j < 64,
                ;
            }
        }
        r
    } else {
        let r = x & !(1u64 << i);
        proof {
            assert forall|j: u64| j < 64 implies #[trigger] bit64(r, j) == (if j == i {
                false
            } else {
                bit64(x, j)
            }) by {
                assert(((x & !(1u64 << i)) & (1u64 << j) != 0) == (j != i && x & (1u64 << j) != 0))
                    by (bit_vector)
                    requires
                        i < 64 && j < 64,
                ;
            }
        }
        r
    }
}

} // verus!
