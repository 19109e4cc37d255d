//! Laws of the register: proofs that the operation contracts compose into
//! the guarantees the model promises, stated over the same shape relations
//! that the operations' own postconditions use.

use vstd::prelude::*;

use crate::register::QMem;
use crate::register::measure_shape;
use crate::register::set_definite_post;
use crate::register::pauli_shape;
use crate::register::swap_shape;
use crate::register::cnot_false_shape;
use crate::register::cnot_true_shape;
use crate::register::entangle_post;

verus! {

/// Measuring a qubit that is already collapsed changes nothing and always
/// reports its classical bit, so repeated measurements agree and no new
/// randomness enters.
pub proof fn lemma_measure_idempotent(
    m0: QMem,
    i: u64,
    v1: bool,
    m1: QMem,
    v2: bool,
    m2: QMem,
)
    requires
        i < 64,
        !m0.is_superposed(i),
        measure_shape(m0, i, v1, m1),
        measure_shape(m1, i, v2, m2),
    ensures
        v1 == m0.qbit(i),
        v2 == v1,
        m1 == m0,
        m2 == m0,
{
}

/// Once any measurement has collapsed a qubit, every further measurement
/// reports the same value and leaves the register untouched.
pub proof fn lemma_measure_stable(m0: QMem, i: u64, v1: bool, m1: QMem, v2: bool, m2: QMem)
    requires
        i < 64,
        measure_shape(m0, i, v1, m1),
        measure_shape(m1, i, v2, m2),
    ensures
        v2 == v1,
        m2 == m1,
{
    assert(m1.qbit(i) == v1);
    assert(!m1.is_superposed(i));
}

/// Pair correlation: after `entangle(a, b)`, fixing `a` to a definite
/// value while `b` is still superposed forces `b` out of superposition to
/// the same value, and any later measurement of `b` reports it.
pub proof fn lemma_pair_correlation(
    m0: QMem,
    a: u64,
    b: u64,
    m1: QMem,
    v: bool,
    m2: QMem,
)
    requires
        a < 64,
        b < 64,
        a != b,
        entangle_post(m0, a, b, m1),
        m1.is_superposed(a),
        m1.is_superposed(b),
        set_definite_post(m1, a, v, m2),
    ensures
        !m2.is_superposed(b),
        m2.qbit(b) == v,
        forall|v3: bool, m3: QMem| #[trigger] measure_shape(m2, b, v3, m3) ==> v3 == v && m3 == m2,
{
    assert(m1.collapse_hits(a, b));
    assert(m2.qbit(b) == v);
    assert forall|v3: bool, m3: QMem| #[trigger] measure_shape(m2, b, v3, m3) implies v3 == v && m3
        == m2 by {
        assert(!m2.is_superposed(b));
    }
}

/// Group correlation: fixing any group member to a definite value forces
/// every other still-superposed member of its group to the same value.
pub proof fn lemma_group_correlation(m0: QMem, a: u64, b: u64, v: bool, m1: QMem)
    requires
        a < 64,
        b < 64,
        b != a,
        m0.group_has(a, b),
        m0.is_superposed(b),
        set_definite_post(m0, a, v, m1),
    ensures
        !m1.is_superposed(b),
        m1.qbit(b) == v,
{
    assert(m0.collapse_hits(a, b));
}

/// The NOT gate is an involution on the measured value: two applications
/// leave the qubit collapsed at what the first application measured, which
/// for an already-collapsed qubit is its original classical bit.
pub proof fn lemma_pauli_x_involution(
    m0: QMem,
    i: u64,
    v1: bool,
    mid1: QMem,
    m1: QMem,
    v2: bool,
    mid2: QMem,
    m2: QMem,
)
    requires
        i < 64,
        pauli_shape(m0, i, v1, mid1, m1),
        pauli_shape(m1, i, v2, mid2, m2),
    ensures
        !m2.is_superposed(i),
        m2.qbit(i) == v1,
        !m0.is_superposed(i) ==> v1 == m0.qbit(i),
{
    assert(mid1.qbit(i) == v1);
    assert(!mid1.is_superposed(i));
    assert(m1.qbit(i) == !v1);
    assert(!m1.is_superposed(i));
    assert(v2 == !v1);
    assert(mid2 == m1);
}

/// Swap correctness: after `swap(a, b)` both qubits are collapsed, each
/// holds the other's measured value, and a qubit that was already
/// collapsed contributed exactly its prior classical bit.
pub proof fn lemma_swap_reads(
    pre: QMem,
    a: u64,
    b: u64,
    va: bool,
    vb: bool,
    m1: QMem,
    m2: QMem,
    m3: QMem,
    post: QMem,
)
    requires
        a < 64,
        b < 64,
        a != b,
        swap_shape(pre, a, b, va, vb, m1, m2, m3, post),
    ensures
        !post.is_superposed(a),
        !post.is_superposed(b),
        post.qbit(a) == vb,
        post.qbit(b) == va,
        !pre.is_superposed(a) ==> va == pre.qbit(a),
        !pre.is_superposed(b) ==> vb == pre.qbit(b),
{
    assert(m3.qbit(a) == vb);
    assert(!m3.is_superposed(a));
    assert(!m3.collapse_hits(b, a));
    assert(m1.qbit(b) == pre.qbit(b) || pre.is_superposed(b));
    assert(m1.is_superposed(b) ==> pre.is_superposed(b));
}

/// CNOT with the control reading 0: a target that is not entangled with a
/// still-superposed control keeps its classical bit, its superposition
/// flag and its probability untouched.
pub proof fn lemma_cnot_control_false(pre: QMem, c: u64, t: u64, post: QMem)
    requires
        c < 64,
        t < 64,
        t != c,
        !pre.collapse_hits(c, t),
        cnot_false_shape(pre, c, post),
    ensures
        post.is_superposed(t) == pre.is_superposed(t),
        post.qbit(t) == pre.qbit(t),
        post.spec_prob(t) == pre.spec_prob(t),
{
}

/// CNOT with the control reading 1: the target ends collapsed at the
/// negation of its own measured value.
pub proof fn lemma_cnot_control_true(
    pre: QMem,
    c: u64,
    t: u64,
    vt: bool,
    m1: QMem,
    m2: QMem,
    post: QMem,
)
    requires
        c < 64,
        t < 64,
        cnot_true_shape(pre, c, t, vt, m1, m2, post),
    ensures
        !post.is_superposed(t),
        post.qbit(t) == !vt,
        !m1.is_superposed(t) ==> vt == m1.qbit(t),
{
    assert(m2.collapse_hits(t, t));
}

} // verus!
