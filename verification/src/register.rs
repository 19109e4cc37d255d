//! The 64-slot qubit register and its operations.
//!
//! Error policy: every operation that takes a qubit index rejects an index
//! of 64 or above with [`QError::IndexOutOfRange`] before touching any
//! state.  Logically vacuous operations on in-range indices (a self-swap,
//! a self-entangle, a group of fewer than two qubits) are benign no-ops,
//! not errors.

use vstd::prelude::*;

use crate::bits::bit64;
use crate::bits::get_bit;
use crate::bits::with_bit;
use crate::bits::lemma_bit64_zero;
use crate::bits::lemma_bit64_ones;
use crate::bits::lemma_bit64_or;

verus! {

/// Number of qubit slots in a register; valid indices are `0 .. QUBITS`.
pub const QUBITS: usize = 64;

/// Denominator of every per-qubit probability: a probability is a ratio
/// `n / PROB_DENOM` with `n <= PROB_DENOM`.
pub const PROB_DENOM: u32 = 1_000_000;

/// The ratio numerator for an even 50/50 chance.
pub const PROB_HALF: u32 = 500_000;

/// The one error an operation can signal: a qubit index of 64 or above.
#[derive(Clone, Copy, Debug, PartialEq, Eq, Structural)]
pub enum QError {
    IndexOutOfRange,
}

/// Probability numerator that `set_qubit` uses when the caller gives none.
pub open spec fn prob_or_half(prob: Option<u32>) -> u32 {
    match prob {
        Some(p) => p,
        None => PROB_HALF,
    }
}

/// The probabilities and entanglement relations of `post` agree with `pre`.
pub open spec fn same_links(pre: QMem, post: QMem) -> bool {
    &&& forall|j: u64| j < 64 ==> #[trigger] post.spec_prob(j) == pre.spec_prob(j)
    &&& forall|j: u64| j < 64 ==> #[trigger] post.spec_pair(j) == pre.spec_pair(j)
    &&& forall|j: u64| j < 64 ==> #[trigger] post.spec_group(j) == pre.spec_group(j)
}

/// `post` is `pre` after qubit `i` was fixed to the definite value `v`:
/// every qubit the collapse forces now holds `v` and has left superposition,
/// and nothing else changed.
pub open spec fn set_definite_post(pre: QMem, i: u64, v: bool, post: QMem) -> bool {
    &&& forall|j: u64| j < 64 ==> #[trigger] post.qbit(j) == (if pre.collapse_hits(i, j) {
        v
    } else {
        pre.qbit(j)
    })
    &&& forall|j: u64| j < 64 ==> #[trigger] post.is_superposed(j) == (pre.is_superposed(j)
        && !pre.collapse_hits(i, j))
    &&& same_links(pre, post)
}

/// `post` is `pre` after qubit `i` entered superposition with probability
/// numerator `p`; no other qubit and no relation changed.
pub open spec fn superpose_post(pre: QMem, i: u64, p: u32, post: QMem) -> bool {
    &&& forall|j: u64| j < 64 ==> #[trigger] post.qbit(j) == pre.qbit(j)
    &&& forall|j: u64| j < 64 ==> #[trigger] post.is_superposed(j) == (pre.is_superposed(j) || j
        == i)
    &&& forall|j: u64| j < 64 ==> #[trigger] post.spec_prob(j) == (if j == i {
        p
    } else {
        pre.spec_prob(j)
    })
    &&& forall|j: u64| j < 64 ==> #[trigger] post.spec_pair(j) == pre.spec_pair(j)
    &&& forall|j: u64| j < 64 ==> #[trigger] post.spec_group(j) == pre.spec_group(j)
}

/// Well-formedness carries over to any register with the same pair and
/// group tables and in-range probabilities.
proof fn lemma_wf_carries(pre: QMem, post: QMem)
    requires
        pre.wf(),
        post.prob.len() == 64,
        post.pair.len() == 64,
        post.group.len() == 64,
        forall|k: u64| k < 64 ==> #[trigger] post.spec_prob(k) <= PROB_DENOM,
        forall|k: u64| k < 64 ==> #[trigger] post.spec_pair(k) == pre.spec_pair(k),
        forall|k: u64| k < 64 ==> #[trigger] post.spec_group(k) == pre.spec_group(k),
    ensures
        post.wf(),
{
    assert forall|k: u64| k < 64 && post.spec_group(k) != 0 implies #[trigger] post.group_has(
        k,
        k,
    ) by {
        assert(pre.group_has(k, k));
    }
    assert forall|k: u64, l: u64|
        k < 64 && l < 64 && #[trigger] post.group_has(k, l) implies post.spec_group(l)
            == post.spec_group(k) by {
        assert(pre.group_has(k, l));
    }
}

/// The value `v` and register `post` are a possible outcome of measuring
/// qubit `i` of `pre`: a qubit outside superposition reports its classical
/// bit and changes nothing; a superposed one collapses to the drawn value
/// `v`, forcing its entangled partners with it.
pub open spec fn measure_shape(pre: QMem, i: u64, v: bool, post: QMem) -> bool {
    if pre.is_superposed(i) {
        set_definite_post(pre, i, v, post)
    } else {
        post == pre && v == pre.qbit(i)
    }
}

/// One application of the NOT gate: qubit `i` was measured as `v` (taking
/// `pre` to `mid`) and then fixed to `!v` (taking `mid` to `post`).
pub open spec fn pauli_shape(pre: QMem, i: u64, v: bool, mid: QMem, post: QMem) -> bool {
    &&& measure_shape(pre, i, v, mid)
    &&& set_definite_post(mid, i, !v, post)
}

/// One application of the swap gate on distinct qubits: `a` measured as
/// `va`, then `b` as `vb`, then `a` fixed to `vb` and `b` to `va`, through
/// the intermediate registers `m1`, `m2`, `m3`.
pub open spec fn swap_shape(
    pre: QMem,
    a: u64,
    b: u64,
    va: bool,
    vb: bool,
    m1: QMem,
    m2: QMem,
    m3: QMem,
    post: QMem,
) -> bool {
    &&& measure_shape(pre, a, va, m1)
    &&& measure_shape(m1, b, vb, m2)
    &&& set_definite_post(m2, a, vb, m3)
    &&& set_definite_post(m3, b, va, post)
}

/// The controlled-NOT outcome in which the control measured 0: nothing
/// happened beyond that measurement.
pub open spec fn cnot_false_shape(pre: QMem, c: u64, post: QMem) -> bool {
    measure_shape(pre, c, false, post)
}

/// The controlled-NOT outcome in which the control measured 1: the target
/// was then measured as `vt` and fixed to `!vt`, through the intermediate
/// registers `m1` and `m2`.
pub open spec fn cnot_true_shape(
    pre: QMem,
    c: u64,
    t: u64,
    vt: bool,
    m1: QMem,
    m2: QMem,
    post: QMem,
) -> bool {
    &&& measure_shape(pre, c, true, m1)
    &&& measure_shape(m1, t, vt, m2)
    &&& set_definite_post(m2, t, !vt, post)
}

/// `post` is `pre` after pairing the distinct qubits `a` and `b`: each is
/// the other's direct partner, the former partners of either (a qubit has
/// at most one) are released to keep the relation symmetric, and nothing
/// else changed.
pub open spec fn entangle_post(pre: QMem, a: u64, b: u64, post: QMem) -> bool {
    &&& post.spec_pair(a) == Some(b as usize)
    &&& post.spec_pair(b) == Some(a as usize)
    &&& forall|j: u64|
        j < 64 && j != a && j != b ==> #[trigger] post.spec_pair(j) == (if pre.spec_pair(j)
            == Some(a as usize) || pre.spec_pair(j) == Some(b as usize) {
            None
        } else {
            pre.spec_pair(j)
        })
    &&& post.spec_state() == pre.spec_state()
    &&& post.spec_superposition() == pre.spec_superposition()
    &&& forall|j: u64| j < 64 ==> #[trigger] post.qbit(j) == pre.qbit(j)
    &&& forall|j: u64| j < 64 ==> #[trigger] post.is_superposed(j) == pre.is_superposed(j)
    &&& forall|j: u64| j < 64 ==> #[trigger] post.spec_prob(j) == pre.spec_prob(j)
    &&& forall|j: u64| j < 64 ==> #[trigger] post.spec_group(j) == pre.spec_group(j)
}

/// Whether qubit `j` is reached by the first `n` of the given indices:
/// `j` is one of them or a member of the existing group of one of them.
pub open spec fn merged_upto(pre: QMem, ixs: Seq<usize>, n: int, j: u64) -> bool
    decreases n,
{
    if n <= 0 {
        false
    } else {
        merged_upto(pre, ixs, n - 1, j) || ixs[n - 1] == j as usize || pre.group_has(
            ixs[n - 1] as u64,
            j,
        )
    }
}

/// Whether qubit `j` joins the group formed by `entangle_group(ixs)` on
/// `pre`: it is one of the given indices or already grouped with one.
pub open spec fn in_merged(pre: QMem, ixs: Seq<usize>, j: u64) -> bool {
    merged_upto(pre, ixs, ixs.len() as int, j)
}

/// The recursion of `merged_upto` unrolled: qubit `j` is reached by the
/// first `n` indices exactly when one of them is `j` or has `j` in its
/// existing group.
pub proof fn lemma_merged_upto_exists(pre: QMem, ixs: Seq<usize>, n: int, j: u64)
    requires
        0 <= n <= ixs.len(),
    ensures
        merged_upto(pre, ixs, n, j) <==> exists|q: int|
            0 <= q < n && (#[trigger] ixs[q] == j as usize || pre.group_has(ixs[q] as u64, j)),
    decreases n,
{
    if n > 0 {
        lemma_merged_upto_exists(pre, ixs, n - 1, j);
        if merged_upto(pre, ixs, n, j) {
            if merged_upto(pre, ixs, n - 1, j) {
                let q = choose|q: int|
                    0 <= q < n - 1 && (#[trigger] ixs[q] == j as usize || pre.group_has(
                        ixs[q] as u64,
                        j,
                    ));
                assert(0 <= q < n && (ixs[q] == j as usize || pre.group_has(ixs[q] as u64, j)));
            } else {
                assert(0 <= n - 1 < n && (ixs[n - 1] == j as usize || pre.group_has(
                    ixs[n - 1] as u64,
                    j,
                )));
            }
        } else {
            assert forall|q: int|
                0 <= q < n implies !(#[trigger] ixs[q] == j as usize || pre.group_has(
                ixs[q] as u64,
                j,
            )) by {}
        }
    }
}

/// `post` is `pre` after the groups reachable from `ixs` were merged:
/// every qubit of the merged set records exactly that set as its group
/// (one shared mask), and nothing else changed.
pub open spec fn group_merge_post(pre: QMem, ixs: Seq<usize>, post: QMem) -> bool {
    &&& forall|j: u64, k: u64|
        j < 64 && k < 64 && in_merged(pre, ixs, j) ==> (#[trigger] post.group_has(j, k)
            <==> in_merged(pre, ixs, k))
    &&& forall|j: u64|
        j < 64 && !in_merged(pre, ixs, j) ==> #[trigger] post.spec_group(j) == pre.spec_group(j)
    &&& forall|j: u64, k: u64|
        #![trigger post.spec_group(j), post.spec_group(k)]
        j < 64 && k < 64 && in_merged(pre, ixs, j) && in_merged(pre, ixs, k) ==> post.spec_group(j)
            == post.spec_group(k)
    &&& post.spec_state() == pre.spec_state()
    &&& post.spec_superposition() == pre.spec_superposition()
    &&& forall|j: u64| j < 64 ==> #[trigger] post.qbit(j) == pre.qbit(j)
    &&& forall|j: u64| j < 64 ==> #[trigger] post.is_superposed(j) == pre.is_superposed(j)
    &&& forall|j: u64| j < 64 ==> #[trigger] post.spec_prob(j) == pre.spec_prob(j)
    &&& forall|j: u64| j < 64 ==> #[trigger] post.spec_pair(j) == pre.spec_pair(j)
}

/// The merged set respects existing groups: whatever reaches a qubit `u`
/// also reaches every member `t` of `u`'s current group.
proof fn lemma_merged_upto_group(pre: QMem, ixs: Seq<usize>, n: int, u: u64, t: u64)
    requires
        pre.wf(),
        forall|q: int| 0 <= q < ixs.len() ==> #[trigger] ixs[q] < 64,
        0 <= n <= ixs.len(),
        u < 64,
        t < 64,
        merged_upto(pre, ixs, n, u),
        pre.group_has(u, t),
    ensures
        merged_upto(pre, ixs, n, t),
    decreases n,
{
    if n > 0 {
        if merged_upto(pre, ixs, n - 1, u) {
            lemma_merged_upto_group(pre, ixs, n - 1, u, t);
        } else if ixs[n - 1] == u as usize {
            assert(pre.group_has(ixs[n - 1] as u64, t));
        } else {
            // u sits in the group of ixs[n-1]; the two masks coincide,
            // so that group also holds t
            assert(pre.group_has(ixs[n - 1] as u64, u));
            assert(pre.spec_group(u) == pre.spec_group(ixs[n - 1] as u64));
            assert(pre.group_has(ixs[n - 1] as u64, t));
        }
    }
}

/// Which qubits an in-progress collapse of qubit `i` has written so far:
/// `i` itself, the direct partner when hit, and the forced group members
/// below `n`.  At `n == 64` this is exactly `collapse_hits`.
spec fn collapse_done(pre: QMem, i: u64, n: u64, j: u64) -> bool {
    ||| j == i
    ||| (pre.spec_pair(i) == Some(j as usize) && pre.is_superposed(j))
    ||| (pre.group_has(i, j) && j != i && pre.is_superposed(j) && j < n)
}

/// A fixed register of 64 simulated qubits.
///
/// Bit `i` of `state` is qubit i's classical value, authoritative only
/// when bit `i` of `superposition` is clear.  While bit `i` of
/// `superposition` is set, measuring qubit i yields 1 with probability
/// `prob[i] / PROB_DENOM`.  `pair[i]` is qubit i's direct entanglement
/// partner, if any; `group[i]` is the mask of qubit i's entanglement
/// group (including i itself), or 0 when i belongs to none.
pub struct QMem {
    state: u64,
    superposition: u64,
    prob: Vec<u32>,
    pair: Vec<Option<usize>>,
    group: Vec<u64>,
}

impl QMem {
    /// The raw classical-bit mask.
    pub closed spec fn spec_state(self) -> u64 {
        self.state
    }

    /// The raw superposition mask.
    pub closed spec fn spec_superposition(self) -> u64 {
        self.superposition
    }

    /// Qubit i's classical bit (authoritative only when not superposed).
    pub open spec fn qbit(self, i: u64) -> bool {
        bit64(self.spec_state(), i)
    }

    /// Whether qubit i is still superposed.
    pub open spec fn is_superposed(self, i: u64) -> bool {
        bit64(self.spec_superposition(), i)
    }

    /// Qubit i's probability numerator (out of `PROB_DENOM`).
    pub closed spec fn spec_prob(self, i: u64) -> u32 {
        self.prob[i as int]
    }

    /// Qubit i's direct entanglement partner, if any.
    pub closed spec fn spec_pair(self, i: u64) -> Option<usize> {
        self.pair[i as int]
    }

    /// The membership mask of qubit i's entanglement group (0: no group).
    pub closed spec fn spec_group(self, i: u64) -> u64 {
        self.group[i as int]
    }

    /// Whether qubit j is a member of qubit i's entanglement group.
    pub open spec fn group_has(self, i: u64, j: u64) -> bool {
        bit64(self.spec_group(i), j)
    }

    /// Structural invariant: the per-qubit tables have one entry per slot,
    /// probabilities are valid ratios, the pair relation is symmetric and
    /// irreflexive, and all members of a group agree on the group's mask.
    pub closed spec fn wf(self) -> bool {
        &&& self.prob.len() == 64
        &&& self.pair.len() == 64
        &&& self.group.len() == 64
        &&& forall|i: u64| i < 64 ==> #[trigger] self.spec_prob(i) <= PROB_DENOM
        &&& forall|i: u64| i < 64 ==> (#[trigger] self.spec_pair(i) matches Some(p) ==> p < 64
            && p != i && self.spec_pair(p as u64) == Some(i as usize))
        &&& forall|i: u64| i < 64 && self.spec_group(i) != 0 ==> #[trigger] self.group_has(i, i)
        &&& forall|i: u64, j: u64| i < 64 && j < 64 && #[trigger] self.group_has(i, j)
            ==> self.spec_group(j) == self.spec_group(i)
    }

    /// Which qubits are forced when qubit `i` is collapsed: `i` itself,
    /// its direct partner while still superposed, and every still-superposed
    /// member of its entanglement group.  Propagation is single-hop: it does
    /// not chain on through the partners' own relations.
    pub open spec fn collapse_hits(self, i: u64, j: u64) -> bool {
        ||| j == i
        ||| (self.spec_pair(i) == Some(j as usize) && self.is_superposed(j))
        ||| (self.group_has(i, j) && j != i && self.is_superposed(j))
    }

    /// A fresh register: every qubit superposed at probability one half,
    /// all classical bits 0, and no entanglement relations.
    pub fn new() -> (r: QMem)
        ensures
            r.wf(),
            forall|j: u64| j < 64 ==> #[trigger] r.is_superposed(j),
            forall|j: u64| j < 64 ==> !(#[trigger] r.qbit(j)),
            forall|j: u64| j < 64 ==> #[trigger] r.spec_prob(j) == PROB_HALF,
            forall|j: u64| j < 64 ==> #[trigger] r.spec_pair(j) is None,
            forall|j: u64| j < 64 ==> #[trigger] r.spec_group(j) == 0,
            forall|i: u64, j: u64| i < 64 && j < 64 ==> !(#[trigger] r.group_has(i, j)),
            r.spec_state() == 0,
            r.spec_superposition() == u64::MAX,
    {
        let mut prob: Vec<u32> = Vec::new();
        let mut pair: Vec<Option<usize>> = Vec::new();
        let mut group: Vec<u64> = Vec::new();
        let mut k: usize = 0;
        while k < 64
            invariant
                prob.len() == k,
                pair.len() == k,
                group.len() == k,
                k <= 64,
                forall|i: int| 0 <= i < k ==> prob[i] == PROB_HALF,
                forall|i: int| 0 <= i < k ==> pair[i] is None,
                forall|i: int| 0 <= i < k ==> group[i] == 0u64,
            decreases 64 - k,
        {
            prob.push(PROB_HALF);
            pair.push(None);
            group.push(0u64);
            k += 1;
        }
        let r = QMem { state: 0, superposition: u64::MAX, prob, pair, group };
        proof {
            lemma_bit64_zero();
            lemma_bit64_ones();
        }
        r
    }

    /// Sets qubit `index` to a definite value (`Some`) or back into
    /// superposition (`None`, with the given probability numerator, one
    /// half when unspecified).  Fixing a definite value forces every
    /// still-superposed direct partner and group member to the same value
    /// in the same step.
    #[verifier::loop_isolation(false)]
    pub fn set_qubit(&mut self, index: usize, value: Option<bool>, prob: Option<u32>) -> (r: Result<
        (),
        QError,
    >)
        requires
            old(self).wf(),
            prob matches Some(p) ==> p <= PROB_DENOM,
        ensures
            final(self).wf(),
            r is Err <==> index >= 64,
            r matches Err(e) ==> e == QError::IndexOutOfRange,
            index >= 64 ==> *final(self) == *old(self),
            index < 64 ==> (value matches Some(v) ==> set_definite_post(
                *old(self),
                index as u64,
                v,
                *final(self),
            )),
            index < 64 && value is None ==> superpose_post(
                *old(self),
                index as u64,
                prob_or_half(prob),
                *final(self),
            ),
    {
        if index >= QUBITS {
            return Err(QError::IndexOutOfRange);
        }
        let i = index as u64;
        match value {
            Some(v) => {
                let pr: Option<usize> = self.pair[index];
                let gm: u64 = self.group[index];
                proof {
                    assert(old(self).spec_pair(i) == pr);
                    assert(old(self).spec_group(i) == gm);
                }
                self.state = with_bit(self.state, i, v);
                self.superposition = with_bit(self.superposition, i, false);
                if let Some(p) = pr {
                    // by well-formedness the partner is another in-range slot
                    assert(p < 64 && p != index);
                    if get_bit(self.superposition, p as u64) {
                        self.state = with_bit(self.state, p as u64, v);
                        self.superposition = with_bit(self.superposition, p as u64, false);
                    }
                }
                assert(forall|k: u64|
                    k < 64 ==> #[trigger] bit64(self.state, k) == (if collapse_done(
                        *old(self),
                        i,
                        0,
                        k,
                    ) {
                        v
                    } else {
                        bit64(old(self).spec_state(), k)
                    }));
                assert(forall|k: u64|
                    k < 64 ==> #[trigger] bit64(self.superposition, k) == (bit64(
                        old(self).spec_superposition(),
                        k,
                    ) && !collapse_done(*old(self), i, 0, k)));
                let mut j: usize = 0;
                while j < 64
                    invariant
                        self.prob == old(self).prob,
                        self.pair == old(self).pair,
                        self.group == old(self).group,
                        j <= 64,
                        forall|k: u64|
                            k < 64 ==> #[trigger] bit64(self.state, k) == (if collapse_done(
                                *old(self),
                                i,
                                j as u64,
                                k,
                            ) {
                                v
                            } else {
                                bit64(old(self).spec_state(), k)
                            }),
                        forall|k: u64|
                            k < 64 ==> #[trigger] bit64(self.superposition, k) == (bit64(
                                old(self).spec_superposition(),
                                k,
                            ) && !collapse_done(*old(self), i, j as u64, k)),
                    decreases 64 - j,
                {
                    let ju = j as u64;
                    if ju != i && get_bit(gm, ju) && get_bit(self.superposition, ju) {
                        self.state = with_bit(self.state, ju, v);
                        self.superposition = with_bit(self.superposition, ju, false);
                    }
                    j += 1;
                }
                assert forall|k: u64| k < 64 implies collapse_done(*old(self), i, 64, k)
                    == old(self).collapse_hits(i, k) by {}
                assert(set_definite_post(*old(self), i, v, *self));
                proof {
                    lemma_wf_carries(*old(self), *self);
                }
                Ok(())
            },
            None => {
                self.superposition = with_bit(self.superposition, i, true);
                let p = match prob {
                    Some(p) => p,
                    None => PROB_HALF,
                };
                self.prob.set(index, p);
                assert(superpose_post(*old(self), i, prob_or_half(prob), *self));
                proof {
                    lemma_wf_carries(*old(self), *self);
                }
                Ok(())
            },
        }
    }

    /// Measures qubit `index`.  A qubit outside superposition reports its
    /// classical bit without any mutation; a superposed one collapses to a
    /// Bernoulli draw at its recorded probability (propagating to entangled
    /// partners) and reports the drawn value.  The draw is the register's
    /// only source of nondeterminism, and an all-or-nothing probability
    /// forces the corresponding outcome.
    pub fn measure(&mut self, index: usize) -> (r: Result<bool, QError>)
        requires
            old(self).wf(),
        ensures
            final(self).wf(),
            r is Err <==> index >= 64,
            r matches Err(e) ==> e == QError::IndexOutOfRange,
            index >= 64 ==> *final(self) == *old(self),
            index < 64 ==> (r matches Ok(v) && measure_shape(
                *old(self),
                index as u64,
                v,
                *final(self),
            )),
            index < 64 && old(self).is_superposed(index as u64) && old(self).spec_prob(
                index as u64,
            ) == 0 ==> r == Ok::<bool, QError>(false),
            index < 64 && old(self).is_superposed(index as u64) && old(self).spec_prob(
                index as u64,
            ) == PROB_DENOM ==> r == Ok::<bool, QError>(true),
    {
        if index >= QUBITS {
            return Err(QError::IndexOutOfRange);
        }
        let i = index as u64;
        if get_bit(self.superposition, i) {
            let num = self.prob[index];
            assert(i as int == index as int);
            assert(num == self.spec_prob(i));
            assert(num <= PROB_DENOM);
            let outcome = crate::rng::draw_ratio(num, PROB_DENOM);
            let _ = self.set_qubit(index, Some(outcome), None);
            Ok(outcome)
        } else {
            Ok(get_bit(self.state, i))
        }
    }

    /// Puts qubit `index` back into an even superposition, discarding any
    /// prior probability bias (the Hadamard gate of this model).
    pub fn hadamard(&mut self, index: usize) -> (r: Result<(), QError>)
        requires
            old(self).wf(),
        ensures
            final(self).wf(),
            r is Err <==> index >= 64,
            r matches Err(e) ==> e == QError::IndexOutOfRange,
            index >= 64 ==> *final(self) == *old(self),
            index < 64 ==> superpose_post(*old(self), index as u64, PROB_HALF, *final(self)),
    {
        self.set_qubit(index, None, Some(PROB_HALF))
    }

    /// Measures qubit `index` (collapsing it if needed) and rewrites it to
    /// the negation of the measured value (the Pauli-X, or NOT, gate of
    /// this model).  The qubit always ends collapsed.
    pub fn pauli_x(&mut self, index: usize) -> (r: Result<(), QError>)
        requires
            old(self).wf(),
        ensures
            final(self).wf(),
            r is Err <==> index >= 64,
            r matches Err(e) ==> e == QError::IndexOutOfRange,
            index >= 64 ==> *final(self) == *old(self),
            index < 64 ==> exists|v: bool, mid: QMem|
                #[trigger] pauli_shape(*old(self), index as u64, v, mid, *final(self)),
            index < 64 ==> !final(self).is_superposed(index as u64),
            index < 64 && !old(self).is_superposed(index as u64) ==> final(self).qbit(
                index as u64,
            ) == !old(self).qbit(index as u64),
    {
        if index >= QUBITS {
            return Err(QError::IndexOutOfRange);
        }
        let v = match self.measure(index) {
            Ok(v) => v,
            Err(e) => {
                return Err(e);
            },
        };
        let ghost mid = *self;
        let _ = self.set_qubit(index, Some(!v), None);
        proof {
            assert(pauli_shape(*old(self), index as u64, v, mid, *self));
        }
        Ok(())
    }

    /// Measures both qubits and writes each the other's measured value.
    /// `swap(a, a)` is a benign no-op; a swap therefore exchanges the
    /// post-measurement classical values, it does not preserve
    /// superpositions.
    pub fn swap(&mut self, a: usize, b: usize) -> (r: Result<(), QError>)
        requires
            old(self).wf(),
        ensures
            final(self).wf(),
            r is Err <==> (a >= 64 || b >= 64),
            r matches Err(e) ==> e == QError::IndexOutOfRange,
            r is Err ==> *final(self) == *old(self),
            a < 64 && b < 64 && a == b ==> *final(self) == *old(self),
            a < 64 && b < 64 && a != b ==> exists|va: bool, vb: bool, m1: QMem, m2: QMem, m3: QMem|
                #[trigger] swap_shape(*old(self), a as u64, b as u64, va, vb, m1, m2, m3, *final(self)),
    {
        if a >= QUBITS || b >= QUBITS {
            return Err(QError::IndexOutOfRange);
        }
        if a == b {
            return Ok(());
        }
        let va = match self.measure(a) {
            Ok(v) => v,
            Err(e) => {
                return Err(e);
            },
        };
        let ghost g1 = *self;
        let vb = match self.measure(b) {
            Ok(v) => v,
            Err(e) => {
                return Err(e);
            },
        };
        let ghost g2 = *self;
        let _ = self.set_qubit(a, Some(vb), None);
        let ghost g3 = *self;
        let _ = self.set_qubit(b, Some(va), None);
        proof {
            assert(swap_shape(*old(self), a as u64, b as u64, va, vb, g1, g2, g3, *self));
        }
        Ok(())
    }

    /// Measures `control`; when it reads 1, measures `target` and rewrites
    /// it to the negation of its measured value; when it reads 0, touches
    /// nothing further, so an unentangled target keeps its state.
    pub fn cnot(&mut self, control: usize, target: usize) -> (r: Result<(), QError>)
        requires
            old(self).wf(),
        ensures
            final(self).wf(),
            r is Err <==> (control >= 64 || target >= 64),
            r matches Err(e) ==> e == QError::IndexOutOfRange,
            r is Err ==> *final(self) == *old(self),
            control < 64 && target < 64 ==> cnot_false_shape(
                *old(self),
                control as u64,
                *final(self),
            ) || exists|vt: bool, m1: QMem, m2: QMem|
                #[trigger] cnot_true_shape(
                    *old(self),
                    control as u64,
                    target as u64,
                    vt,
                    m1,
                    m2,
                    *final(self),
                ),
    {
        if control >= QUBITS || target >= QUBITS {
            return Err(QError::IndexOutOfRange);
        }
        let vc = match self.measure(control) {
            Ok(v) => v,
            Err(e) => {
                return Err(e);
            },
        };
        if vc {
            let ghost g1 = *self;
            let vt = match self.measure(target) {
                Ok(v) => v,
                Err(e) => {
                    return Err(e);
                },
            };
            let ghost g2 = *self;
            let _ = self.set_qubit(target, Some(!vt), None);
            proof {
                assert(cnot_true_shape(
                    *old(self),
                    control as u64,
                    target as u64,
                    vt,
                    g1,
                    g2,
                    *self,
                ));
            }
        }
        Ok(())
    }

    /// Measures both qubits and reports the two outcomes together with
    /// whether they agree; the diagnostic check that entangled qubits
    /// collapse in correlation.
    pub fn bells_test(&mut self, a: usize, b: usize) -> (r: Result<(bool, bool, bool), QError>)
        requires
            old(self).wf(),
        ensures
            final(self).wf(),
            r is Err <==> (a >= 64 || b >= 64),
            r matches Err(e) ==> e == QError::IndexOutOfRange,
            r is Err ==> *final(self) == *old(self),
            r matches Ok(t) ==> t.2 == (t.0 == t.1) && exists|m1: QMem|
                (#[trigger] measure_shape(*old(self), a as u64, t.0, m1) && measure_shape(
                    m1,
                    b as u64,
                    t.1,
                    *final(self),
                )),
    {
        if a >= QUBITS || b >= QUBITS {
            return Err(QError::IndexOutOfRange);
        }
        let va = match self.measure(a) {
            Ok(v) => v,
            Err(e) => {
                return Err(e);
            },
        };
        let ghost g1 = *self;
        let vb = match self.measure(b) {
            Ok(v) => v,
            Err(e) => {
                return Err(e);
            },
        };
        proof {
            assert(measure_shape(*old(self), a as u64, va, g1) && measure_shape(
                g1,
                b as u64,
                vb,
                *self,
            ));
        }
        Ok((va, vb, va == vb))
    }

    /// Declares a symmetric direct entanglement between two qubits.  Each
    /// becomes the other's one partner (releasing any pairing either had
    /// before), so a later collapse of one forces the other with it.
    /// `entangle(a, a)` is a benign no-op; nothing collapses here.
    pub fn entangle(&mut self, a: usize, b: usize) -> (r: Result<(), QError>)
        requires
            old(self).wf(),
        ensures
            final(self).wf(),
            r is Err <==> (a >= 64 || b >= 64),
            r matches Err(e) ==> e == QError::IndexOutOfRange,
            r is Err ==> *final(self) == *old(self),
            a < 64 && b < 64 && a == b ==> *final(self) == *old(self),
            a < 64 && b < 64 && a != b ==> entangle_post(
                *old(self),
                a as u64,
                b as u64,
                *final(self),
            ),
    {
        if a >= QUBITS || b >= QUBITS {
            return Err(QError::IndexOutOfRange);
        }
        if a == b {
            return Ok(());
        }
        let pa: Option<usize> = self.pair[a];
        let pb: Option<usize> = self.pair[b];
        assert(pa == old(self).spec_pair(a as u64));
        assert(pb == old(self).spec_pair(b as u64));
        if let Some(c) = pa {
            // by well-formedness the old partner is another in-range slot
            assert(c < 64);
            self.pair.set(c, None);
        }
        if let Some(d) = pb {
            assert(d < 64);
            self.pair.set(d, None);
        }
        self.pair.set(a, Some(b));
        self.pair.set(b, Some(a));
        assert(entangle_post(*old(self), a as u64, b as u64, *self));
        proof {
            let pre = *old(self);
            let au = a as u64;
            let bu = b as u64;
            assert forall|k: u64|
                k < 64 implies (#[trigger] self.spec_pair(k) matches Some(p) ==> p < 64 && p != k
                && self.spec_pair(p as u64) == Some(k as usize)) by {
                if k != au && k != bu {
                    if !(pre.spec_pair(k) == Some(a) || pre.spec_pair(k) == Some(b)) {
                        match pre.spec_pair(k) {
                            Some(p) => {
                                // symmetry in the old table: the far endpoint
                                // points back at k, so it is neither a, b nor
                                // a released old partner of them
                                assert(pre.spec_pair(p as u64) == Some(k as usize));
                                assert(pa matches Some(c) ==> pre.spec_pair(c as u64) == Some(a));
                                assert(pb matches Some(d) ==> pre.spec_pair(d as u64) == Some(b));
                                assert(self.spec_pair(p as u64) == Some(k as usize));
                            },
                            None => {},
                        }
                    }
                }
            }
            assert forall|k: u64|
                k < 64 && self.spec_group(k) != 0 implies #[trigger] self.group_has(k, k) by {
                assert(old(self).group_has(k, k));
            }
            assert forall|k: u64, l: u64|
                k < 64 && l < 64 && #[trigger] self.group_has(k, l) implies self.spec_group(l)
                    == self.spec_group(k) by {
                assert(old(self).group_has(k, l));
            }
        }
        assert(self.wf());
        Ok(())
    }

    /// Entangles several qubits in one group.  The new group is the union
    /// of the given indices with every existing group any of them already
    /// belonged to, and each member records that whole union, so merging
    /// through a shared member is transitive at declaration time.  Fewer
    /// than two indices is a benign no-op; any out-of-range index is
    /// rejected before anything changes.
    #[verifier::loop_isolation(false)]
    pub fn entangle_group(&mut self, indices: &Vec<usize>) -> (r: Result<(), QError>)
        requires
            old(self).wf(),
        ensures
            final(self).wf(),
            r is Err <==> exists|q: int| 0 <= q < indices@.len() && #[trigger] indices@[q] >= 64,
            r matches Err(e) ==> e == QError::IndexOutOfRange,
            r is Err ==> *final(self) == *old(self),
            r is Ok && indices@.len() < 2 ==> *final(self) == *old(self),
            r is Ok && indices@.len() >= 2 ==> group_merge_post(*old(self), indices@, *final(self)),
            r is Ok && indices@.len() >= 2 ==> forall|j: u64|
                j < 64 ==> (in_merged(*old(self), indices@, j) <==> exists|q: int|
                    0 <= q < indices@.len() && (#[trigger] indices@[q] == j as usize || old(
                        self,
                    ).group_has(indices@[q] as u64, j))),
    {
        let n = indices.len();
        let mut k: usize = 0;
        while k < n
            invariant
                k <= n,
                forall|q: int| 0 <= q < k ==> #[trigger] indices@[q] < 64,
            decreases n - k,
        {
            if indices[k] >= QUBITS {
                return Err(QError::IndexOutOfRange);
            }
            k += 1;
        }
        if n < 2 {
            return Ok(());
        }
        // the union of the given indices and their existing groups
        let mut mask: u64 = 0;
        let mut k: usize = 0;
        proof {
            lemma_bit64_zero();
        }
        while k < n
            invariant
                k <= n,
                forall|j: u64|
                    j < 64 ==> (#[trigger] bit64(mask, j) <==> merged_upto(
                        *old(self),
                        indices@,
                        k as int,
                        j,
                    )),
            decreases n - k,
        {
            let ix = indices[k];
            let gmask = self.group[ix];
            proof {
                assert(gmask == old(self).spec_group(ix as u64));
            }
            let m1 = with_bit(mask, ix as u64, true);
            proof {
                lemma_bit64_or(m1, gmask);
            }
            mask = m1 | gmask;
            k += 1;
        }
        // hand the union to every member
        let ghost pre = *old(self);
        let mut j: usize = 0;
        while j < 64
            invariant
                j <= 64,
                self.state == pre.state,
                self.superposition == pre.superposition,
                self.prob == pre.prob,
                self.pair == pre.pair,
                self.group.len() == 64,
                forall|t: u64|
                    t < j ==> #[trigger] self.spec_group(t) == (if bit64(mask, t) {
                        mask
                    } else {
                        pre.spec_group(t)
                    }),
                forall|t: u64| j <= t < 64 ==> #[trigger] self.spec_group(t) == pre.spec_group(t),
            decreases 64 - j,
        {
            let ghost prev = *self;
            if get_bit(mask, j as u64) {
                self.group.set(j, mask);
                proof {
                    assert(self.group@ == prev.group@.update(j as int, mask));
                    assert forall|t: u64| t < 64 implies #[trigger] self.spec_group(t) == (if t
                        == j as u64 {
                        mask
                    } else {
                        prev.spec_group(t)
                    }) by {}
                }
            }
            j += 1;
        }
        proof {
            let ixs = indices@;
            // wf: self-membership of the written masks, and consistency
            assert forall|t: u64|
                t < 64 && self.spec_group(t) != 0 implies #[trigger] self.group_has(t, t) by {
                if !bit64(mask, t) {
                    assert(pre.group_has(t, t));
                }
            }
            assert forall|t: u64, u: u64|
                t < 64 && u < 64 && #[trigger] self.group_has(t, u) implies self.spec_group(u)
                    == self.spec_group(t) by {
                if bit64(mask, t) {
                    assert(bit64(mask, u));
                } else {
                    // t kept its old group; no member of it was merged,
                    // else t itself would have been reached
                    assert(pre.group_has(t, u));
                    assert(pre.spec_group(u) == pre.spec_group(t));
                    if bit64(mask, u) {
                        assert(merged_upto(pre, ixs, ixs.len() as int, u));
                        assert(pre.group_has(u, t)) by {
                            assert(pre.group_has(t, t));
                        }
                        lemma_merged_upto_group(pre, ixs, ixs.len() as int, u, t);
                        assert(false);
                    }
                }
            }
            assert(self.prob.len() == 64 && self.pair.len() == 64);
            assert(forall|t: u64| t < 64 ==> #[trigger] self.spec_prob(t) == pre.spec_prob(t));
            assert(forall|t: u64| t < 64 ==> #[trigger] self.spec_pair(t) == pre.spec_pair(t));
            assert(self.wf());
            assert(group_merge_post(pre, ixs, *self));
            assert forall|j: u64|
                j < 64 implies (in_merged(pre, ixs, j) <==> exists|q: int|
                0 <= q < ixs.len() && (#[trigger] ixs[q] == j as usize || pre.group_has(
                    ixs[q] as u64,
                    j,
                ))) by {
                lemma_merged_upto_exists(pre, ixs, ixs.len() as int, j);
            }
        }
        Ok(())
    }

    /// The raw classical-bit mask; bit i is qubit i's collapsed value.
    pub fn get_state(&self) -> (r: u64)
        ensures
            r == self.spec_state(),
    {
        self.state
    }

    /// The raw superposition mask; bit i set means qubit i is superposed.
    pub fn get_superposition(&self) -> (r: u64)
        ensures
            r == self.spec_superposition(),
    {
        self.superposition
    }

    /// Qubit `index`'s probability numerator (out of `PROB_DENOM`).
    pub fn get_probability(&self, index: usize) -> (r: Result<u32, QError>)
        requires
            self.wf(),
        ensures
            r is Err <==> index >= 64,
            r matches Err(e) ==> e == QError::IndexOutOfRange,
            index < 64 ==> r == Ok::<u32, QError>(self.spec_prob(index as u64)),
    {
        if index >= QUBITS {
            return Err(QError::IndexOutOfRange);
        }
        Ok(self.prob[index])
    }

    /// Qubit `index`'s direct entanglement partner, if it has one.
    pub fn get_entangled_pair(&self, index: usize) -> (r: Result<Option<usize>, QError>)
        requires
            self.wf(),
        ensures
            r is Err <==> index >= 64,
            r matches Err(e) ==> e == QError::IndexOutOfRange,
            index < 64 ==> r == Ok::<Option<usize>, QError>(self.spec_pair(index as u64)),
    {
        if index >= QUBITS {
            return Err(QError::IndexOutOfRange);
        }
        Ok(self.pair[index])
    }

    /// The membership mask of qubit `index`'s entanglement group: bit j is
    /// set when qubit j belongs to it; 0 when the qubit is in no group.
    pub fn get_entangled_group(&self, index: usize) -> (r: Result<u64, QError>)
        requires
            self.wf(),
        ensures
            r is Err <==> index >= 64,
            r matches Err(e) ==> e == QError::IndexOutOfRange,
            index < 64 ==> r == Ok::<u64, QError>(self.spec_group(index as u64)),
    {
        if index >= QUBITS {
            return Err(QError::IndexOutOfRange);
        }
        Ok(self.group[index])
    }
}

impl Default for QMem {
    /// Same as `QMem::new`: all qubits superposed at probability one half.
    fn default() -> (r: QMem)
        ensures
            r.wf(),
            forall|j: u64| j < 64 ==> #[trigger] r.is_superposed(j),
            forall|j: u64| j < 64 ==> !(#[trigger] r.qbit(j)),
            forall|j: u64| j < 64 ==> #[trigger] r.spec_prob(j) == PROB_HALF,
            forall|j: u64| j < 64 ==> #[trigger] r.spec_pair(j) is None,
            forall|j: u64| j < 64 ==> #[trigger] r.spec_group(j) == 0,
            forall|i: u64, j: u64| i < 64 && j < 64 ==> !(#[trigger] r.group_has(i, j)),
            r.spec_state() == 0,
            r.spec_superposition() == u64::MAX,
    {
        QMem::new()
    }
}

} // verus!
