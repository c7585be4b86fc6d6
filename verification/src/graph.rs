//! The complete weighted undirected graph derived from a correlation matrix.
//!
//! For every unordered pair of distinct regions `(i, j)` there is exactly one
//! edge, and its weight is the inverse square of the pair's correlation
//! coefficient: in fixed point, a defined nonzero coefficient `k` (scaled by
//! `SCALE`) gives the exact rational weight `SCALE_SQ / (k * k)`, held as
//! [`Weight::Finite`] with `corr_sq = k * k`. A zero coefficient gives
//! [`Weight::Infinite`] (the edge exists but can never be chosen for a
//! spanning tree), and an undefined coefficient gives [`Weight::Undefined`]
//! (a poisoned edge, excluded from tree building altogether).

use vstd::math::abs;
use vstd::prelude::*;

use crate::corr_matrix::{corr_valid, Corr, CorrMatrix, SCALE};

verus! {

/// `SCALE * SCALE`: the numerator of every finite edge weight.
pub const SCALE_SQ: i64 = SCALE * SCALE;

/// An edge weight under the `correlation^(-2)` transform.
#[derive(Clone, Copy, Debug, PartialEq, Eq, Structural)]
pub enum Weight {
    /// Exact rational weight `SCALE_SQ / corr_sq`, where `corr_sq` is the
    /// square of the (scaled, nonzero) correlation coefficient.
    Finite { corr_sq: i64 },
    /// The correlation was exactly zero, so `1 / c^2` diverges.
    Infinite,
    /// The correlation itself was undefined (zero-variance series).
    Undefined,
}

/// A finite weight's `corr_sq` lies in `[1, SCALE_SQ]`, so its rational
/// value `SCALE_SQ / corr_sq` lies in `[1, SCALE_SQ]` as well.
pub open spec fn weight_valid(w: Weight) -> bool {
    match w {
        Weight::Finite { corr_sq } => 1 <= corr_sq <= SCALE_SQ,
        Weight::Infinite => true,
        Weight::Undefined => true,
    }
}

/// The exact weight of a coefficient under the inverse-square transform.
pub open spec fn spec_weight_of(c: Corr) -> Weight {
    match c {
        Corr::Undefined => Weight::Undefined,
        Corr::Defined(k) => if k == 0 {
            Weight::Infinite
        } else {
            Weight::Finite { corr_sq: (k * k) as i64 }
        },
    }
}

/// `a` is strictly heavier than `b`. For two finite weights this is the
/// exact rational comparison `SCALE_SQ / a.corr_sq > SCALE_SQ / b.corr_sq`,
/// written cross-multiplied (denominators are positive for valid weights).
/// An infinite weight is heavier than every finite one; an undefined weight
/// compares with nothing.
pub open spec fn weight_gt(a: Weight, b: Weight) -> bool {
    match (a, b) {
        (Weight::Finite { corr_sq: x }, Weight::Finite { corr_sq: y }) => (SCALE_SQ as int) * y
            > (SCALE_SQ as int) * x,
        (Weight::Infinite, Weight::Finite { .. }) => true,
        _ => false,
    }
}

/// One undirected edge, stored with `u < v`; node identity is the region's
/// positional index in the correlation matrix.
#[derive(Clone, Copy, Debug, PartialEq, Eq, Structural)]
pub struct Edge {
    pub u: usize,
    pub v: usize,
    pub weight: Weight,
}

/// An edge is well formed for a graph on `n` nodes.
pub open spec fn edge_wf(e: Edge, n: int) -> bool {
    &&& (e.u as int) < (e.v as int)
    &&& (e.v as int) < n
    &&& weight_valid(e.weight)
}

/// Strict lexicographic order on an edge's endpoint pair.
pub open spec fn pair_lex_lt(a: Edge, b: Edge) -> bool {
    ||| (a.u as int) < (b.u as int)
    ||| (a.u == b.u && (a.v as int) < (b.v as int))
}

/// A weighted undirected simple graph on nodes `0 .. n`.
pub struct WeightedGraph {
    /// Number of nodes.
    pub n: usize,
    /// Undirected edges, each with `u < v` and no pair repeated.
    pub edges: Vec<Edge>,
}

impl WeightedGraph {
    /// Well-formedness: every edge connects two distinct nodes in range
    /// (stored with `u < v`), carries a valid weight, and no unordered pair
    /// appears twice.
    pub open spec fn wf(self) -> bool {
        &&& forall|k: int|
            0 <= k < self.edges@.len() ==> edge_wf(#[trigger] self.edges@[k], self.n as int)
        &&& forall|k1: int, k2: int|
            #![trigger self.edges@[k1], self.edges@[k2]]
            0 <= k1 < k2 < self.edges@.len() ==> !(self.edges@[k1].u == self.edges@[k2].u
                && self.edges@[k1].v == self.edges@[k2].v)
    }
}

/// The edge a complete graph over `m` holds for the node pair `(a, b)`.
pub open spec fn pair_edge(m: CorrMatrix, a: int, b: int) -> Edge {
    Edge { u: a as usize, v: b as usize, weight: spec_weight_of(m.corr_at(a, b)) }
}

/// Number of unordered pairs `(a, b)` with `a < b < n` and `a < i`.
pub open spec fn pairs_upto(n: int, i: int) -> int
    decreases i,
{
    if i <= 0 {
        0
    } else {
        pairs_upto(n, i - 1) + (n - i)
    }
}

proof fn lemma_pairs_upto_closed(n: int, i: int)
    requires
        0 <= i <= n,
    ensures
        pairs_upto(n, i) * 2 == i * (2 * n - i - 1),
    decreases i,
{
    if i > 0 {
        lemma_pairs_upto_closed(n, i - 1);
        assert(pairs_upto(n, i) == pairs_upto(n, i - 1) + (n - i));
        assert(pairs_upto(n, i) * 2 == pairs_upto(n, i - 1) * 2 + 2 * (n - i));
        assert(pairs_upto(n, i - 1) * 2 == (i - 1) * (2 * n - (i - 1) - 1));
        assert((i - 1) * (2 * n - (i - 1) - 1) + 2 * (n - i) == i * (2 * n - i - 1))
            by (nonlinear_arith);
    } else {
        assert(pairs_upto(n, i) == 0);
        assert(i * (2 * n - i - 1) == 0) by (nonlinear_arith)
            requires
                i == 0,
        ;
    }
}

/// The weight of one coefficient, computed exactly.
pub fn weight_of(c: Corr) -> (w: Weight)
    requires
        corr_valid(c),
    ensures
        w == spec_weight_of(c),
        weight_valid(w),
{
    match c {
        Corr::Undefined => Weight::Undefined,
        Corr::Defined(k) => {
            if k == 0 {
                Weight::Infinite
            } else {
                proof {
                    assert(1 <= k * k && k * k <= SCALE * SCALE) by (nonlinear_arith)
                        requires
                            -SCALE <= k <= SCALE && k != 0,
                    ;
                }
                Weight::Finite { corr_sq: k * k }
            }
        },
    }
}

/// Build the complete weighted graph over the matrix's regions.
///
/// The result has one node per region (node identity = region index) and
/// exactly `n * (n - 1) / 2` edges: one per unordered pair of distinct
/// regions, each carrying exactly the inverse-square weight of that pair's
/// stored correlation. Self-loops are not materialized. The matrix is only
/// read, never changed.
pub fn make_graph(m: &CorrMatrix) -> (r: WeightedGraph)
    requires
        m.wf(),
    ensures
        r.wf(),
        r.n as int == m.n(),
        r.edges@.len() == m.n() * (m.n() - 1) / 2,
        forall|k: int|
            0 <= k < r.edges@.len() ==> #[trigger] r.edges@[k] == pair_edge(
                *m,
                r.edges@[k].u as int,
                r.edges@[k].v as int,
            ),
        forall|a: int, b: int|
            #![trigger m.corr_at(a, b)]
            0 <= a < b < m.n() ==> exists|k: int|
                0 <= k < r.edges@.len() && r.edges@[k] == pair_edge(*m, a, b),
        forall|k1: int, k2: int|
            #![trigger r.edges@[k1], r.edges@[k2]]
            0 <= k1 < k2 < r.edges@.len() ==> pair_lex_lt(r.edges@[k1], r.edges@[k2]),
{
    let n = m.regions.len();
    let total = m.values.len();
    let mut edges: Vec<Edge> = Vec::new();
    let mut i: usize = 0;
    while i < n
        invariant
            m.wf(),
            0 <= i <= n,
            n as int == m.n(),
            total as int == m.n() * m.n(),
            edges@.len() == pairs_upto(n as int, i as int),
            forall|k: int|
                0 <= k < edges@.len() ==> edge_wf(#[trigger] edges@[k], n as int),
            forall|k: int|
                0 <= k < edges@.len() ==> #[trigger] edges@[k] == pair_edge(
                    *m,
                    edges@[k].u as int,
                    edges@[k].v as int,
                ),
            forall|k1: int, k2: int|
                #![trigger edges@[k1], edges@[k2]]
                0 <= k1 < k2 < edges@.len() ==> pair_lex_lt(edges@[k1], edges@[k2]),
            forall|k: int| 0 <= k < edges@.len() ==> (#[trigger] edges@[k]).u < i,
            forall|a: int, b: int|
                #![trigger m.corr_at(a, b)]
                0 <= a < b < m.n() && a < i ==> exists|k: int|
                    0 <= k < edges@.len() && edges@[k] == pair_edge(*m, a, b),
        decreases n - i,
    {
        let mut j: usize = i + 1;
        while j < n
            invariant
                m.wf(),
                0 <= i < n,
                i < j <= n,
                n as int == m.n(),
                total as int == m.n() * m.n(),
                edges@.len() == pairs_upto(n as int, i as int) + (j - i - 1),
                forall|k: int|
                    0 <= k < edges@.len() ==> edge_wf(#[trigger] edges@[k], n as int),
                forall|k: int|
                    0 <= k < edges@.len() ==> #[trigger] edges@[k] == pair_edge(
                        *m,
                        edges@[k].u as int,
                        edges@[k].v as int,
                    ),
                forall|k1: int, k2: int|
                    #![trigger edges@[k1], edges@[k2]]
                    0 <= k1 < k2 < edges@.len() ==> pair_lex_lt(edges@[k1], edges@[k2]),
                forall|k: int|
                    0 <= k < edges@.len() ==> (#[trigger] edges@[k]).u < i || ((
                    #[trigger] edges@[k]).u == i && (edges@[k]).v < j),
                forall|a: int, b: int|
                    #![trigger m.corr_at(a, b)]
                    0 <= a < b < m.n() && (a < i || (a == i && b < j)) ==> exists|k: int|
                        0 <= k < edges@.len() && edges@[k] == pair_edge(*m, a, b),
            decreases n - j,
        {
            proof {
                assert((i as int) * (n as int) + (j as int) < (n as int) * (n as int))
                    by (nonlinear_arith)
                    requires
                        0 <= i < n && 0 <= j < n,
                ;
                assert((i as int) * (n as int) + (j as int) < total as int);
            }
            let c = m.values[i * n + j];
            let w = weight_of(c);
            let e = Edge { u: i, v: j, weight: w };
            let ghost old_edges = edges@;
            edges.push(e);
            proof {
                assert(edges@[old_edges.len() as int] == pair_edge(*m, i as int, j as int));
                assert forall|a: int, b: int|
                    #![trigger m.corr_at(a, b)]
                    0 <= a < b < m.n() && (a < i || (a == i && b < j + 1)) implies exists|k: int|
                    0 <= k < edges@.len() && edges@[k] == pair_edge(*m, a, b) by {
                    if a < i || (a == i && b < j) {
                        let k0 = choose|k: int|
                            0 <= k < old_edges.len() && old_edges[k] == pair_edge(*m, a, b);
                        assert(edges@[k0] == pair_edge(*m, a, b));
                    } else {
                        assert(edges@[old_edges.len() as int] == pair_edge(*m, a, b));
                    }
                }
            }
            j += 1;
        }
        i += 1;
    }
    proof {
        // pairs_upto(n, n - 1) counts every pair, and equals pairs_upto(n, n).
        if n > 0 {
            assert(pairs_upto(n as int, n as int) == pairs_upto(n as int, n as int - 1));
        }
        lemma_pairs_upto_closed(n as int, n as int);
        let ghost len = edges@.len() as int;
        assert(len * 2 == (n as int) * (2 * (n as int) - (n as int) - 1));
        assert((n as int) * (2 * (n as int) - (n as int) - 1) == (n as int) * ((n as int) - 1));
        vstd::arithmetic::div_mod::lemma_div_multiples_vanish(len, 2);
        assert((2 * len) / 2 == len);
        assert((n as int) * ((n as int) - 1) / 2 == len);
    }
    WeightedGraph { n, edges }
}

/// Law (weight monotonicity): of two defined, nonzero correlations, the one
/// of smaller magnitude maps to the strictly larger weight — weaker
/// similarity means greater distance. Stated over the exact rational values
/// of the two weights.
pub proof fn lemma_weight_monotonic(c1: i64, c2: i64)
    requires
        0 < abs(c1 as int),
        abs(c1 as int) < abs(c2 as int),
        abs(c2 as int) <= SCALE as int,
    ensures
        weight_gt(spec_weight_of(Corr::Defined(c1)), spec_weight_of(Corr::Defined(c2))),
{
    let a1 = abs(c1 as int);
    let a2 = abs(c2 as int);
    assert((c1 as int) * (c1 as int) == a1 * a1 && (c2 as int) * (c2 as int) == a2 * a2)
        by (nonlinear_arith)
        requires
            a1 == abs(c1 as int) && a2 == abs(c2 as int),
    ;
    assert(a1 * a1 < a2 * a2) by (nonlinear_arith)
        requires
            0 < a1 < a2,
    ;
    assert((SCALE_SQ as int) * ((c2 as int) * (c2 as int)) > (SCALE_SQ as int) * ((c1 as int)
        * (c1 as int))) by (nonlinear_arith)
        requires
            (c1 as int) * (c1 as int) < (c2 as int) * (c2 as int) && SCALE_SQ > 0,
    ;
    assert(1 <= (c1 as int) * (c1 as int) <= SCALE_SQ as int) by (nonlinear_arith)
        requires
            0 < a1 && a1 < a2 && a2 <= SCALE as int && (c1 as int) * (c1 as int) == a1 * a1
                && SCALE_SQ == SCALE * SCALE,
    ;
    assert(1 <= (c2 as int) * (c2 as int) <= SCALE_SQ as int) by (nonlinear_arith)
        requires
            0 < a2 && a2 <= SCALE as int && (c2 as int) * (c2 as int) == a2 * a2 && SCALE_SQ
                == SCALE * SCALE,
    ;
}

} // verus!
