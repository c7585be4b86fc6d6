//! Minimum spanning tree extraction by Kruskal's algorithm.
//!
//! The engine scans the graph's finite-weight edges in ascending weight
//! order — ties broken by `(min endpoint, max endpoint)` ascending, so the
//! scan order is a total order and the output is fully deterministic — and
//! accepts an edge whenever its endpoints lie in different components of a
//! union-find structure. Edges of undefined weight are excluded from the
//! scan up front, and infinite-weight edges can never be accepted (they are
//! not finite), so a graph held together only by zero or undefined
//! correlations is reported as disconnected rather than silently bridged.
//!
//! The whole computation is pinned to a functional specification
//! ([`kruskal_edges`] / [`kruskal_comp`] over [`sorted_finite`]), which is a
//! function of the node count and the *multiset* of edges alone; determinism
//! under permutation of the input edge list is proved as
//! [`lemma_mst_deterministic`].

use vstd::prelude::*;
use vstd::relations::{sorted_by, total_ordering};
use vstd::seq_lib::lemma_sorted_unique;

use crate::errors::MstError;
use crate::graph::{edge_wf, weight_gt, weight_valid, Edge, Weight, WeightedGraph, SCALE_SQ};

verus! {

broadcast use vstd::seq_lib::group_to_multiset_ensures, vstd::multiset::group_multiset_axioms, vstd::set::group_set_axioms, vstd::seq_lib::seq_to_set_is_finite;

/// Sort-key tag of a weight: finite weights come first, then infinite, then
/// undefined (the latter two never reach the scan, but the order is total).
pub open spec fn wtag(w: Weight) -> int {
    match w {
        Weight::Finite { .. } => 0,
        Weight::Infinite => 1,
        Weight::Undefined => 2,
    }
}

/// Sort-key magnitude of a weight: the squared correlation of a finite
/// weight (a *larger* squared correlation means a *smaller* weight).
pub open spec fn wcsq(w: Weight) -> int {
    match w {
        Weight::Finite { corr_sq } => corr_sq as int,
        Weight::Infinite => 0,
        Weight::Undefined => 0,
    }
}

/// The scan order: ascending weight (finite before infinite before
/// undefined; among finite weights, descending `corr_sq` is ascending
/// rational weight `SCALE_SQ / corr_sq`), ties broken by `(u, v)` ascending.
/// This is a total order, and two edges equal under it are equal outright.
pub open spec fn edge_le(a: Edge, b: Edge) -> bool {
    if wtag(a.weight) != wtag(b.weight) {
        wtag(a.weight) < wtag(b.weight)
    } else if wcsq(a.weight) != wcsq(b.weight) {
        wcsq(a.weight) > wcsq(b.weight)
    } else if a.u != b.u {
        (a.u as int) < (b.u as int)
    } else {
        (a.v as int) <= (b.v as int)
    }
}

/// The scan order as a first-class relation (for `sort_by` and its lemmas).
pub open spec fn edge_le_fn() -> spec_fn(Edge, Edge) -> bool {
    |a: Edge, b: Edge| edge_le(a, b)
}

/// Whether an edge carries a finite weight (only those enter the scan).
pub open spec fn finite_pred() -> spec_fn(Edge) -> bool {
    |e: Edge| e.weight is Finite
}

/// The deterministic scan sequence of a graph: its finite-weight edges in
/// scan order.
pub open spec fn sorted_finite(g: WeightedGraph) -> Seq<Edge> {
    g.edges@.filter(finite_pred()).sort_by(edge_le_fn())
}

/// The scan order is a total order on edges.
pub proof fn lemma_edge_le_total_ordering()
    ensures
        total_ordering(edge_le_fn()),
{
    let leq = edge_le_fn();
    assert forall|a: Edge| #[trigger] leq(a, a) by {
        assert(edge_le(a, a));
    }
    assert forall|a: Edge, b: Edge| #[trigger] leq(a, b) && #[trigger] leq(b, a) implies a == b by {
        assert(wtag(a.weight) == wtag(b.weight));
        assert(wcsq(a.weight) == wcsq(b.weight));
        match (a.weight, b.weight) {
            (Weight::Finite { corr_sq: x }, Weight::Finite { corr_sq: y }) => {
                assert(x == y);
            },
            _ => {},
        }
        assert(a.weight == b.weight);
        assert(a.u == b.u && a.v == b.v);
    }
    assert forall|a: Edge, b: Edge, c: Edge|
        #[trigger] leq(a, b) && #[trigger] leq(b, c) implies leq(a, c) by {
        assert(edge_le(a, b) && edge_le(b, c));
        assert(edge_le(a, c));
    }
    assert forall|a: Edge, b: Edge| #[trigger] leq(a, b) || #[trigger] leq(b, a) by {
        if !edge_le(a, b) {
            assert(edge_le(b, a));
        }
    }
}

/// Initial union-find state: every node is its own component.
pub open spec fn init_comp(n: nat) -> Seq<usize> {
    Seq::new(n, |i: int| i as usize)
}

/// Relabel every node of component `ca` into component `cb`.
pub open spec fn merge_comp(comp: Seq<usize>, ca: usize, cb: usize) -> Seq<usize> {
    comp.map_values(|c: usize| if c == ca { cb } else { c })
}

/// An edge joins two distinct components of the current state.
pub open spec fn edge_joins(comp: Seq<usize>, e: Edge) -> bool {
    &&& (e.u as int) < comp.len()
    &&& (e.v as int) < comp.len()
    &&& comp[e.u as int] != comp[e.v as int]
}

/// The edges Kruskal's scan accepts, processing `edges` in order from state
/// `comp`: an edge whose endpoints lie in different components is taken and
/// the components merge; any other edge is skipped.
pub open spec fn kruskal_edges(edges: Seq<Edge>, comp: Seq<usize>) -> Seq<Edge>
    decreases edges.len(),
{
    if edges.len() == 0 {
        Seq::empty()
    } else {
        let e = edges[0];
        if edge_joins(comp, e) {
            seq![e] + kruskal_edges(
                edges.drop_first(),
                merge_comp(comp, comp[e.u as int], comp[e.v as int]),
            )
        } else {
            kruskal_edges(edges.drop_first(), comp)
        }
    }
}

/// The union-find state after Kruskal's scan.
pub open spec fn kruskal_comp(edges: Seq<Edge>, comp: Seq<usize>) -> Seq<usize>
    decreases edges.len(),
{
    if edges.len() == 0 {
        comp
    } else {
        let e = edges[0];
        if edge_joins(comp, e) {
            kruskal_comp(edges.drop_first(), merge_comp(comp, comp[e.u as int], comp[e.v as int]))
        } else {
            kruskal_comp(edges.drop_first(), comp)
        }
    }
}

/// How many of the nodes `0 .. upto` ended in a component other than node
/// 0's — the nodes the tree under construction could not reach.
pub open spec fn count_unreached(comp: Seq<usize>, upto: int) -> int
    decreases upto,
{
    if upto <= 0 {
        0
    } else {
        count_unreached(comp, upto - 1) + if comp[upto - 1] != comp[0] {
            1 as int
        } else {
            0 as int
        }
    }
}

/// The tree edges the engine extracts from `g`.
pub open spec fn spec_mst_edges(g: WeightedGraph) -> Seq<Edge> {
    kruskal_edges(sorted_finite(g), init_comp(g.n as nat))
}

/// Whether extraction succeeds: the finite-weight edges connect all nodes,
/// i.e. the scan accepted a full spanning set of `n - 1` edges.
pub open spec fn spec_mst_ok(g: WeightedGraph) -> bool {
    g.n == 0 || spec_mst_edges(g).len() == g.n as int - 1
}

/// The number of nodes the scan left unconnected from node 0.
pub open spec fn spec_unreached(g: WeightedGraph) -> int {
    count_unreached(kruskal_comp(sorted_finite(g), init_comp(g.n as nat)), g.n as int)
}

/// Merging two distinct component labels that are both in use removes
/// exactly one label from the set of labels.
proof fn lemma_merge_label_set(comp: Seq<usize>, ca: usize, cb: usize)
    requires
        comp.contains(ca),
        comp.contains(cb),
        ca != cb,
    ensures
        merge_comp(comp, ca, cb).to_set() =~= comp.to_set().remove(ca).insert(cb),
        merge_comp(comp, ca, cb).to_set().len() == comp.to_set().len() - 1,
{
    let m = merge_comp(comp, ca, cb);
    assert forall|x: usize| m.to_set().contains(x) implies comp.to_set().remove(ca).insert(
        cb,
    ).contains(x) by {
        let i = choose|i: int| 0 <= i < m.len() && m[i] == x;
        if comp[i] == ca {
            assert(x == cb);
        } else {
            assert(comp.contains(comp[i]));
        }
    }
    assert forall|x: usize| comp.to_set().remove(ca).insert(cb).contains(x) implies m
        .to_set()
        .contains(x) by {
        if x == cb {
            let j = choose|j: int| 0 <= j < comp.len() && comp[j] == cb;
            assert(m[j] == cb);
            assert(m.contains(cb));
        } else {
            let j = choose|j: int| 0 <= j < comp.len() && comp[j] == x;
            assert(m[j] == x);
            assert(m.contains(x));
        }
    }
    assert(m.to_set() =~= comp.to_set().remove(ca).insert(cb));
    assert(comp.to_set().contains(ca) && comp.to_set().contains(cb));
    assert(comp.to_set().remove(ca).len() == comp.to_set().len() - 1);
    assert(comp.to_set().remove(ca).contains(cb));
    assert(comp.to_set().remove(ca).insert(cb).len() == comp.to_set().remove(ca).len());
}

/// Bookkeeping of Kruskal's scan: every accepted edge merges two distinct
/// components, so the number of accepted edges plus the number of component
/// labels left at the end equals the number of labels at the start.
proof fn lemma_kruskal_label_count(edges: Seq<Edge>, comp: Seq<usize>)
    ensures
        kruskal_edges(edges, comp).len() + kruskal_comp(edges, comp).to_set().len() == comp
            .to_set()
            .len(),
    decreases edges.len(),
{
    if edges.len() > 0 {
        let e = edges[0];
        let rest = edges.drop_first();
        if edge_joins(comp, e) {
            let ca = comp[e.u as int];
            let cb = comp[e.v as int];
            assert(comp.contains(ca) && comp.contains(cb));
            lemma_merge_label_set(comp, ca, cb);
            lemma_kruskal_label_count(rest, merge_comp(comp, ca, cb));
            assert(kruskal_edges(edges, comp).len() == 1 + kruskal_edges(
                rest,
                merge_comp(comp, ca, cb),
            ).len());
        } else {
            lemma_kruskal_label_count(rest, comp);
        }
    }
}

/// The initial union-find state uses exactly `n` distinct labels.
proof fn lemma_init_comp_labels(n: nat)
    requires
        n <= usize::MAX,
    ensures
        init_comp(n).to_set().len() == n,
    decreases n,
{
    if n == 0 {
        assert forall|x: usize| !(#[trigger] init_comp(0).to_set().contains(x)) by {
            assert(!init_comp(0).contains(x));
        }
        assert(init_comp(0).to_set() =~= Set::<usize>::empty());
    } else {
        let m = (n - 1) as nat;
        lemma_init_comp_labels(m);
        let prev = init_comp(m);
        let cur = init_comp(n);
        let top = m as usize;
        assert forall|x: usize| cur.to_set().contains(x) implies prev.to_set().insert(
            top,
        ).contains(x) by {
            let i = choose|i: int| 0 <= i < cur.len() && cur[i] == x;
            if i < m {
                assert(prev[i] == x);
                assert(prev.contains(x));
            } else {
                assert(x == top);
            }
        }
        assert forall|x: usize| prev.to_set().insert(top).contains(x) implies cur
            .to_set()
            .contains(x) by {
            if x == top {
                assert(cur[m as int] == x);
                assert(cur.contains(x));
            } else {
                let i = choose|i: int| 0 <= i < prev.len() && prev[i] == x;
                assert(cur[i] == x);
                assert(cur.contains(x));
            }
        }
        assert(cur.to_set() =~= prev.to_set().insert(top));
        assert(!prev.to_set().contains(top)) by {
            if prev.contains(top) {
                let i = choose|i: int| 0 <= i < prev.len() && prev[i] == top;
                assert(prev[i] == (i as usize));
                assert(0 <= i < m);
                assert((i as usize) as int == i);
                assert(top as int == m);
                assert(false);
            }
        }
        assert(cur.to_set().len() == prev.to_set().len() + 1);
    }
}

/// If no node up to `upto` was counted as unreached, every node up to
/// `upto` carries node 0's label.
proof fn lemma_count_unreached_zero(comp: Seq<usize>, upto: int, k: int)
    requires
        0 <= k < upto,
        count_unreached(comp, upto) == 0,
    ensures
        comp[k] == comp[0],
    decreases upto,
{
    lemma_count_unreached_nonneg(comp, upto - 1);
    if k < upto - 1 {
        lemma_count_unreached_zero(comp, upto - 1, k);
    }
}

proof fn lemma_count_unreached_nonneg(comp: Seq<usize>, upto: int)
    ensures
        count_unreached(comp, upto) >= 0,
    decreases upto,
{
    if upto > 0 {
        lemma_count_unreached_nonneg(comp, upto - 1);
    }
}

/// If every node up to `upto` carries node 0's label, none is unreached.
proof fn lemma_count_unreached_all_equal(comp: Seq<usize>, upto: int)
    requires
        forall|k: int| 0 <= k < upto ==> #[trigger] comp[k] == comp[0],
    ensures
        count_unreached(comp, upto) == 0,
    decreases upto,
{
    if upto > 0 {
        lemma_count_unreached_all_equal(comp, upto - 1);
    }
}

/// A finite set of size one has only one member.
proof fn lemma_singleton_members(s: Set<usize>, a: usize, b: usize)
    requires
        s.finite(),
        s.len() == 1,
        s.contains(a),
        s.contains(b),
    ensures
        a == b,
{
    if a != b {
        let pair = Set::<usize>::empty().insert(a).insert(b);
        assert(pair.subset_of(s));
        vstd::set_lib::lemma_len_subset(pair, s);
        assert(pair.len() == 2);
        assert(false);
    }
}

/// A minimum spanning tree: the node set of its source graph and the
/// accepted edges, in scan order.
pub struct Mst {
    /// Number of nodes (same node set as the source graph).
    pub n: usize,
    /// The `n - 1` tree edges, in the order the scan accepted them.
    pub edges: Vec<Edge>,
}

/// The scan order, decided executably.
fn edge_le_exec(a: &Edge, b: &Edge) -> (r: bool)
    ensures
        r == edge_le(*a, *b),
{
    let ta: u8 = match a.weight {
        Weight::Finite { .. } => 0,
        Weight::Infinite => 1,
        Weight::Undefined => 2,
    };
    let tb: u8 = match b.weight {
        Weight::Finite { .. } => 0,
        Weight::Infinite => 1,
        Weight::Undefined => 2,
    };
    if ta != tb {
        return ta < tb;
    }
    let ca: i64 = match a.weight {
        Weight::Finite { corr_sq } => corr_sq,
        Weight::Infinite => 0,
        Weight::Undefined => 0,
    };
    let cb: i64 = match b.weight {
        Weight::Finite { corr_sq } => corr_sq,
        Weight::Infinite => 0,
        Weight::Undefined => 0,
    };
    if ca != cb {
        return ca > cb;
    }
    if a.u != b.u {
        return a.u < b.u;
    }
    a.v <= b.v
}

/// First position of `arr` whose edge does not precede `e` in scan order.
fn find_insert_pos(arr: &Vec<Edge>, e: &Edge) -> (pos: usize)
    ensures
        0 <= pos <= arr@.len(),
        forall|k: int| 0 <= k < pos ==> edge_le(#[trigger] arr@[k], *e),
        pos < arr@.len() ==> !edge_le(arr@[pos as int], *e),
{
    let mut pos: usize = 0;
    while pos < arr.len()
        invariant
            0 <= pos <= arr@.len(),
            forall|k: int| 0 <= k < pos ==> edge_le(#[trigger] arr@[k], *e),
        decreases arr@.len() - pos,
    {
        if !edge_le_exec(&arr[pos], e) {
            return pos;
        }
        pos += 1;
    }
    pos
}

/// Insert an edge into a scan-ordered vector, keeping it ordered.
fn sorted_insert(arr: &mut Vec<Edge>, e: Edge)
    requires
        sorted_by(old(arr)@, edge_le_fn()),
    ensures
        sorted_by(final(arr)@, edge_le_fn()),
        final(arr)@.to_multiset() == old(arr)@.to_multiset().insert(e),
        forall|x: Edge| #[trigger] final(arr)@.contains(x) ==> old(arr)@.contains(x) || x == e,
{
    proof {
        lemma_edge_le_total_ordering();
    }
    let pos = find_insert_pos(arr, &e);
    let ghost olds = arr@;
    arr.insert(pos, e);
    proof {
        let leq = edge_le_fn();
        assert(arr@ == olds.insert(pos as int, e));
        assert forall|i: int, j: int| 0 <= i < j < arr@.len() implies leq(arr@[i], arr@[j]) by {
            if j < pos {
                assert(arr@[i] == olds[i] && arr@[j] == olds[j]);
            } else if i < pos && j == pos {
                assert(arr@[i] == olds[i] && arr@[j] == e);
            } else if i < pos && j > pos {
                assert(arr@[i] == olds[i] && arr@[j] == olds[j - 1]);
                if (pos as int) == j - 1 {
                    assert(!leq(olds[pos as int], e));
                    assert(leq(e, olds[pos as int]));
                    assert(leq(olds[i], olds[pos as int]));
                } else {
                    assert(leq(olds[i], olds[j - 1]));
                }
            } else if i == pos {
                assert(arr@[i] == e && arr@[j] == olds[j - 1]);
                assert(pos < olds.len());
                assert(!leq(olds[pos as int], e));
                assert(leq(e, olds[pos as int]));
                if (pos as int) < j - 1 {
                    assert(leq(olds[pos as int], olds[j - 1]));
                }
            } else {
                assert(arr@[i] == olds[i - 1] && arr@[j] == olds[j - 1]);
                assert(leq(olds[i - 1], olds[j - 1]));
            }
        }
        vstd::seq_lib::to_multiset_insert(olds, pos as int, e);
        assert forall|x: Edge| #[trigger] arr@.contains(x) implies olds.contains(x) || x == e by {
            assert(arr@.to_multiset().count(x) > 0);
            if x != e {
                assert(olds.to_multiset().count(x) > 0);
            }
        }
    }
}

/// Pushing one element through `filter` keeps it exactly when it satisfies
/// the predicate.
proof fn lemma_filter_push<A>(s: Seq<A>, x: A, p: spec_fn(A) -> bool)
    ensures
        s.push(x).filter(p) == if p(x) {
            s.filter(p).push(x)
        } else {
            s.filter(p)
        },
{
    reveal(Seq::filter);
    let t = s.push(x);
    assert(t.drop_last() =~= s);
    assert(t.last() == x);
}

/// `filter` commutes with `to_multiset`.
proof fn lemma_filter_to_multiset<A>(s: Seq<A>, p: spec_fn(A) -> bool)
    ensures
        s.filter(p).to_multiset() == s.to_multiset().filter(p),
    decreases s.len(),
{
    reveal(Seq::filter);
    if s.len() == 0 {
        assert forall|x: A|
            s.filter(p).to_multiset().count(x) == s.to_multiset().filter(p).count(x) by {
            assert(!s.contains(x));
            assert(!s.filter(p).contains(x));
        }
        assert(s.filter(p).to_multiset() =~= s.to_multiset().filter(p));
    } else {
        let rest = s.drop_last();
        let e = s.last();
        lemma_filter_to_multiset(rest, p);
        assert(s =~= rest.push(e));
        assert(s.to_multiset() == rest.push(e).to_multiset());
        assert(rest.push(e).to_multiset() == rest.to_multiset().insert(e));
        assert(s.filter(p) == if p(e) {
            rest.filter(p).push(e)
        } else {
            rest.filter(p)
        });
        assert forall|x: A|
            s.filter(p).to_multiset().count(x) == s.to_multiset().filter(p).count(x) by {
            if p(e) {
                assert(s.filter(p).to_multiset() == rest.filter(p).to_multiset().insert(e));
            }
        }
        assert(s.filter(p).to_multiset() =~= s.to_multiset().filter(p));
    }
}

/// Compute the minimum spanning tree of a well-formed graph.
///
/// On success the tree spans the same node set with exactly `n - 1` accepted
/// edges (0 for the empty graph), each taken from the graph's own edge list,
/// in scan order; the result is exactly the functional Kruskal specification
/// [`spec_mst_edges`]. Extraction succeeds precisely when the finite-weight
/// edges connect all nodes ([`spec_mst_ok`]); on success the final
/// union-find state reaches every node from node 0 (`spec_unreached == 0`).
/// Otherwise nothing partial is returned: the engine reports
/// [`MstError::Disconnected`] with the exact, strictly positive number of
/// nodes that could not be reached from node 0.
pub fn find_mst(g: &WeightedGraph) -> (r: Result<Mst, MstError>)
    requires
        g.wf(),
    ensures
        r is Ok <==> spec_mst_ok(*g),
        match r {
            Ok(t) => {
                &&& t.n == g.n
                &&& t.edges@ == spec_mst_edges(*g)
                &&& t.edges@.len() == (if g.n == 0 {
                    0int
                } else {
                    g.n as int - 1
                })
                &&& forall|k: int|
                    0 <= k < t.edges@.len() ==> g.edges@.contains(#[trigger] t.edges@[k])
                &&& spec_unreached(*g) == 0
            },
            Err(e) => e == (MstError::Disconnected { unreached: spec_unreached(*g) as usize })
                && spec_unreached(*g) > 0,
        },
{
    let n = g.n;

    // Collect the finite-weight edges, already in scan order.
    let mut fin: Vec<Edge> = Vec::new();
    let mut idx: usize = 0;
    while idx < g.edges.len()
        invariant
            g.wf(),
            n == g.n,
            0 <= idx <= g.edges@.len(),
            sorted_by(fin@, edge_le_fn()),
            fin@.to_multiset() == g.edges@.subrange(0, idx as int).filter(
                finite_pred(),
            ).to_multiset(),
            forall|x: Edge| #[trigger]
                fin@.contains(x) ==> g.edges@.contains(x) && edge_wf(x, n as int),
        decreases g.edges@.len() - idx,
    {
        let e = g.edges[idx];
        let ghost prefix = g.edges@.subrange(0, idx as int);
        let ghost oldfin = fin@;
        let is_fin = match e.weight {
            Weight::Finite { .. } => true,
            _ => false,
        };
        if is_fin {
            sorted_insert(&mut fin, e);
        }
        proof {
            assert(g.edges@.contains(g.edges@[idx as int]));
            assert(g.edges@.subrange(0, idx as int + 1) =~= prefix.push(e));
            lemma_filter_push(prefix, e, finite_pred());
            if finite_pred()(e) {
                assert(prefix.push(e).filter(finite_pred()) == prefix.filter(
                    finite_pred(),
                ).push(e));
            }
            assert forall|x: Edge| #[trigger]
                fin@.contains(x) implies g.edges@.contains(x) && edge_wf(x, n as int) by {
                if is_fin {
                    assert(oldfin.contains(x) || x == e);
                } else {
                    assert(oldfin.contains(x));
                }
            }
        }
        idx += 1;
    }
    proof {
        assert(g.edges@.subrange(0, g.edges@.len() as int) =~= g.edges@);
        lemma_edge_le_total_ordering();
        g.edges@.filter(finite_pred()).lemma_sort_by_ensures(edge_le_fn());
        lemma_sorted_unique(
            fin@,
            g.edges@.filter(finite_pred()).sort_by(edge_le_fn()),
            edge_le_fn(),
        );
        assert(fin@ == sorted_finite(*g));
    }

    // Union-find: every node starts as its own component.
    let mut comp: Vec<usize> = Vec::new();
    let mut t: usize = 0;
    while t < n
        invariant
            comp@.len() == t,
            0 <= t <= n,
            forall|k: int| 0 <= k < t ==> (#[trigger] comp@[k]) as int == k,
        decreases n - t,
    {
        comp.push(t);
        t += 1;
    }
    proof {
        assert(comp@ =~= init_comp(n as nat));
    }

    let ghost fin0 = fin@;
    let ghost init0 = comp@;
    proof {
        assert(fin0.subrange(0, fin0.len() as int) =~= fin0);
        assert(Seq::<Edge>::empty() + kruskal_edges(fin0, init0) =~= kruskal_edges(fin0, init0));
        assert(Seq::<Edge>::empty() + kruskal_edges(fin0.subrange(0, fin0.len() as int), init0)
            =~= kruskal_edges(fin0.subrange(0, fin0.len() as int), init0));
    }

    // The scan: accept an edge when its endpoints lie in different
    // components, then merge the two components.
    let mut acc: Vec<Edge> = Vec::new();
    let mut i: usize = 0;
    while i < fin.len()
        invariant
            g.wf(),
            n == g.n,
            fin@ == fin0,
            comp@.len() == n as int,
            forall|k: int| 0 <= k < n as int ==> ((#[trigger] comp@[k]) as int) < n as int,
            forall|x: Edge| #[trigger]
                fin0.contains(x) ==> g.edges@.contains(x) && edge_wf(x, n as int),
            0 <= i <= fin0.len(),
            kruskal_edges(fin0, init0) == acc@ + kruskal_edges(
                fin0.subrange(i as int, fin0.len() as int),
                comp@,
            ),
            kruskal_comp(fin0, init0) == kruskal_comp(
                fin0.subrange(i as int, fin0.len() as int),
                comp@,
            ),
            forall|x: Edge| #[trigger] acc@.contains(x) ==> g.edges@.contains(x),
            acc@.len() <= i,
        decreases fin0.len() - i,
    {
        let e = fin[i];
        proof {
            assert(fin0.contains(fin0[i as int]));
        }
        let ghost rest = fin0.subrange(i as int, fin0.len() as int);
        proof {
            assert(rest[0] == e);
            assert(rest.drop_first() =~= fin0.subrange(i as int + 1, fin0.len() as int));
        }
        let cu = comp[e.u];
        let cv = comp[e.v];
        if cu != cv {
            let ghost oldacc = acc@;
            let ghost oldc = comp@;
            acc.push(e);
            let mut t2: usize = 0;
            while t2 < comp.len()
                invariant
                    comp@.len() == oldc.len(),
                    0 <= t2 <= comp@.len(),
                    forall|k: int|
                        0 <= k < t2 ==> (#[trigger] comp@[k]) == (if oldc[k] == cu {
                            cv
                        } else {
                            oldc[k]
                        }),
                    forall|k: int| t2 <= k < comp@.len() ==> (#[trigger] comp@[k]) == oldc[k],
                decreases comp@.len() - t2,
            {
                if comp[t2] == cu {
                    comp.set(t2, cv);
                }
                t2 += 1;
            }
            proof {
                assert(comp@ =~= merge_comp(oldc, cu, cv));
                assert(edge_joins(oldc, e));
                assert(kruskal_edges(rest, oldc) == seq![e] + kruskal_edges(
                    rest.drop_first(),
                    merge_comp(oldc, cu, cv),
                ));
                assert(kruskal_comp(rest, oldc) == kruskal_comp(
                    rest.drop_first(),
                    merge_comp(oldc, cu, cv),
                ));
                assert(acc@ == oldacc.push(e));
                assert(oldacc + (seq![e] + kruskal_edges(rest.drop_first(), comp@)) =~= acc@
                    + kruskal_edges(rest.drop_first(), comp@));
                assert(kruskal_edges(fin0, init0) == acc@ + kruskal_edges(
                    fin0.subrange(i as int + 1, fin0.len() as int),
                    comp@,
                ));
                assert forall|k: int| 0 <= k < n as int implies ((#[trigger] comp@[k]) as int)
                    < n as int by {
                    assert(comp@[k] == cv || comp@[k] == oldc[k]);
                }
                assert forall|x: Edge| #[trigger] acc@.contains(x) implies g.edges@.contains(
                    x,
                ) by {
                    let k = choose|k: int| 0 <= k < acc@.len() && acc@[k] == x;
                    if k < oldacc.len() {
                        assert(oldacc.contains(x));
                    } else {
                        assert(x == e);
                        assert(fin0.contains(fin0[i as int]));
                    }
                }
            }
        } else {
            proof {
                assert(!edge_joins(comp@, e));
                assert(kruskal_edges(rest, comp@) == kruskal_edges(rest.drop_first(), comp@));
                assert(kruskal_comp(rest, comp@) == kruskal_comp(rest.drop_first(), comp@));
            }
        }
        i += 1;
    }
    proof {
        assert(fin0.subrange(fin0.len() as int, fin0.len() as int) =~= Seq::<Edge>::empty());
        assert(kruskal_edges(Seq::<Edge>::empty(), comp@) == Seq::<Edge>::empty());
        assert(acc@ + Seq::<Edge>::empty() =~= acc@);
        assert(acc@ == kruskal_edges(fin0, init0));
        assert(comp@ == kruskal_comp(fin0, init0));
        assert(fin0 == sorted_finite(*g));
        assert(init0 == init_comp(g.n as nat));
        assert(acc@ == spec_mst_edges(*g));
        assert forall|k: int| 0 <= k < acc@.len() implies g.edges@.contains(
            #[trigger] acc@[k],
        ) by {
            assert(acc@.contains(acc@[k]));
        }
        if n == 0 {
            if g.edges@.len() > 0 {
                assert(edge_wf(g.edges@[0], n as int));
                assert(false);
            }
            assert(g.edges@ =~= Seq::<Edge>::empty());
            reveal(Seq::filter);
            assert(g.edges@.filter(finite_pred()).len() == 0);
            assert(g.edges@.filter(finite_pred()).to_multiset().len() == 0);
            assert(fin0.to_multiset().len() == fin0.len());
            assert(fin0.len() == 0);
            assert(acc@.len() == 0);
        }
    }

    proof {
        lemma_init_comp_labels(n as nat);
        lemma_kruskal_label_count(fin0, init0);
        assert(acc@.len() + comp@.to_set().len() == n as int);
    }
    if n == 0 {
        return Ok(Mst { n, edges: acc });
    }
    if acc.len() == n - 1 {
        proof {
            assert(comp@.to_set().len() == 1);
            assert(comp@.to_set().finite());
            assert forall|k: int| 0 <= k < n as int implies #[trigger] comp@[k] == comp@[0] by {
                assert(comp@.contains(comp@[k]));
                assert(comp@.contains(comp@[0]));
                lemma_singleton_members(comp@.to_set(), comp@[k], comp@[0]);
            }
            lemma_count_unreached_all_equal(comp@, n as int);
            assert(spec_unreached(*g) == 0);
        }
        return Ok(Mst { n, edges: acc });
    }

    // Disconnected: count the nodes outside node 0's component.
    let c0 = comp[0];
    let mut cnt: usize = 0;
    let mut t3: usize = 0;
    while t3 < n
        invariant
            comp@.len() == n as int,
            0 <= t3 <= n,
            c0 == comp@[0],
            cnt as int == count_unreached(comp@, t3 as int),
            cnt <= t3,
        decreases n - t3,
    {
        if comp[t3] != c0 {
            cnt += 1;
        }
        t3 += 1;
    }
    proof {
        assert(cnt as int == spec_unreached(*g));
        if cnt == 0 {
            assert forall|k: int| 0 <= k < n as int implies #[trigger] comp@[k] == comp@[0] by {
                if k > 0 {
                    lemma_count_unreached_zero(comp@, n as int, k);
                }
            }
            assert forall|x: usize| comp@.to_set().contains(x) implies Set::<usize>::empty()
                .insert(comp@[0])
                .contains(x) by {
                let i = choose|i: int| 0 <= i < comp@.len() && comp@[i] == x;
                assert(comp@[i] == comp@[0]);
            }
            assert(comp@.contains(comp@[0]));
            assert(comp@.to_set() =~= Set::<usize>::empty().insert(comp@[0]));
            assert(comp@.to_set().len() == 1);
            assert(acc@.len() == n as int - 1);
            assert(false);
        }
    }
    Err(MstError::Disconnected { unreached: cnt })
}

/// The scan order agrees with the exact rational weights: of two edges with
/// valid weights, if `b`'s weight is strictly greater than `a`'s (under the
/// exact comparison of [`weight_gt`]), then `a` comes strictly earlier in
/// the scan. Sorting by the scan key is sorting by ascending weight.
pub proof fn lemma_scan_order_is_ascending_weight(a: Edge, b: Edge)
    requires
        weight_valid(a.weight),
        weight_valid(b.weight),
        weight_gt(b.weight, a.weight),
    ensures
        edge_le(a, b),
        !edge_le(b, a),
{
    match (b.weight, a.weight) {
        (Weight::Finite { corr_sq: y }, Weight::Finite { corr_sq: x }) => {
            assert((SCALE_SQ as int) * (x as int) > (SCALE_SQ as int) * (y as int));
            assert(x > y) by (nonlinear_arith)
                requires
                    (SCALE_SQ as int) * (x as int) > (SCALE_SQ as int) * (y as int) && SCALE_SQ
                        > 0,
            ;
            assert(wcsq(a.weight) > wcsq(b.weight));
        },
        (Weight::Infinite, Weight::Finite { .. }) => {
            assert(wtag(a.weight) < wtag(b.weight));
        },
        _ => {
            assert(false);
        },
    }
}

/// Law (determinism): everything the engine extracts from a graph — the
/// scan sequence, the chosen tree edges, the success verdict and the
/// unreachable count — depends only on the node count and the *multiset* of
/// edges. Two graphs whose edge lists are permutations of one another are
/// treated identically, so a second run over permuted input yields an
/// identical edge set.
pub proof fn lemma_mst_deterministic(g1: WeightedGraph, g2: WeightedGraph)
    requires
        g1.n == g2.n,
        g1.edges@.to_multiset() == g2.edges@.to_multiset(),
    ensures
        sorted_finite(g1) == sorted_finite(g2),
        spec_mst_edges(g1) == spec_mst_edges(g2),
        spec_mst_ok(g1) == spec_mst_ok(g2),
        spec_unreached(g1) == spec_unreached(g2),
{
    lemma_filter_to_multiset(g1.edges@, finite_pred());
    lemma_filter_to_multiset(g2.edges@, finite_pred());
    assert(g1.edges@.filter(finite_pred()).to_multiset() == g2.edges@.filter(
        finite_pred(),
    ).to_multiset());
    lemma_edge_le_total_ordering();
    g1.edges@.filter(finite_pred()).lemma_sort_by_ensures(edge_le_fn());
    g2.edges@.filter(finite_pred()).lemma_sort_by_ensures(edge_le_fn());
    lemma_sorted_unique(sorted_finite(g1), sorted_finite(g2), edge_le_fn());
}

} // verus!
