//! Counting the packed risk-set moments kept per distinct design row.
//!
//! For `p` coefficients a row contributes its risk (one value), the first
//! moments `x_j * r` (`p` values), the upper triangle of the second moments
//! `x_j * x_k * r` with `j <= k`, and the upper "tetrahedron" of the third
//! moments `x_j * x_k * x_l * r` with `j <= k <= l`.

use vstd::prelude::*;

verus! {

/// The number of packed moments for `p` coefficients, in closed form.
pub open spec fn moment_count_spec(p: nat) -> nat {
    1 + p + p * (p + 1) / 2 + p * (p + 1) * (p + 2) / 6
}

/// Number of moments stored for one design row with `p` coefficients.
pub fn moment_count(p: usize) -> (count: usize)
    requires
        p * (p + 1) * (p + 2) <= usize::MAX,
    ensures
        count == moment_count_spec(p as nat),
        count == 1 + p + p * (p + 1) / 2 + p * (p + 1) * (p + 2) / 6,
{
    proof {
        assert(p <= p * (p + 1)) by (nonlinear_arith)
            requires p >= 0;
        assert(p * (p + 1) <= p * (p + 1) * (p + 2)) by (nonlinear_arith)
            requires p >= 0;
        assert(p == 0 || p + 2 <= p * (p + 1) * (p + 2)) by (nonlinear_arith)
            requires p >= 0;
    }
    let pairs = p * (p + 1);
    let triples = pairs * (p + 2);
    proof {
        assert(1 + p + pairs / 2 + triples / 6 <= triples || p == 0) by (nonlinear_arith)
            requires pairs == p * (p + 1), triples == pairs * (p + 2), p >= 0;
    }
    1 + p + pairs / 2 + triples / 6
}

/// Number of second moments written when the outer loop index runs from `j`
/// up to `p`: for each `j` the inner index `k` takes the values `j..p`.
pub open spec fn pair_slots_from(j: nat, p: nat) -> nat
    decreases p - j,
{
    if j >= p {
        0
    } else {
        (p - j) as nat + pair_slots_from(j + 1, p)
    }
}

/// Number of third moments written when the outer loop index runs from `j`
/// up to `p`: for each `j` the pairs `j <= k <= l < p`.
pub open spec fn triple_slots_from(j: nat, p: nat) -> nat
    decreases p - j,
{
    if j >= p {
        0
    } else {
        pair_slots_from(j, p) + triple_slots_from(j + 1, p)
    }
}

/// Closed form of the number of pairs `j <= k < p` from `j` on.
pub proof fn lemma_pair_slots(j: nat, p: nat)
    requires
        j <= p,
    ensures
        2 * pair_slots_from(j, p) == (p - j) * (p - j + 1),
    decreases p - j,
{
    if j < p {
        lemma_pair_slots(j + 1, p);
        let m: int = p - j;
        assert(2 * m + (m - 1) * m == m * (m + 1)) by (nonlinear_arith);
    }
}

/// Closed form of the number of triples `j <= k <= l < p` from `j` on.
pub proof fn lemma_triple_slots(j: nat, p: nat)
    requires
        j <= p,
    ensures
        6 * triple_slots_from(j, p) == (p - j) * (p - j + 1) * (p - j + 2),
    decreases p - j,
{
    if j < p {
        lemma_triple_slots(j + 1, p);
        lemma_pair_slots(j, p);
        let m: int = p - j;
        let rest = triple_slots_from(j + 1, p);
        let here = pair_slots_from(j, p);
        assert(6 * rest == (m - 1) * m * (m + 1));
        assert(2 * here == m * (m + 1));
        assert(6 * (here + rest) == m * (m + 1) * (m + 2)) by (nonlinear_arith)
            requires
                6 * rest == (m - 1) * m * (m + 1),
                2 * here == m * (m + 1),
        ;
        assert(triple_slots_from(j, p) == here + rest);
        assert((p - j) * (p - j + 1) * (p - j + 2) == m * (m + 1) * (m + 2));
    } else {
        let m: int = p - j;
        assert(m == 0);
        assert(m * (m + 1) * (m + 2) == 0) by (nonlinear_arith)
            requires m == 0;
    }
}

/// The packed layout is exactly `moment_count` long: one risk, `p` first
/// moments, one slot per pair `j <= k` and one per triple `j <= k <= l`.
pub proof fn lemma_moment_layout_fills_count(p: nat)
    ensures
        moment_count_spec(p) == 1 + p + pair_slots_from(0, p) + triple_slots_from(0, p),
{
    lemma_pair_slots(0, p);
    lemma_triple_slots(0, p);
    let a = pair_slots_from(0, p);
    let b = triple_slots_from(0, p);
    assert(p * (p + 1) / 2 == a) by (nonlinear_arith)
        requires 2 * a == p * (p + 1);
    assert(p * (p + 1) * (p + 2) / 6 == b) by (nonlinear_arith)
        requires 6 * b == p * (p + 1) * (p + 2);
}

} // verus!
