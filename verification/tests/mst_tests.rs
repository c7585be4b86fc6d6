use avocado_mst::corr_matrix::{Corr, CorrMatrix, SCALE};
use avocado_mst::errors::MstError;
use avocado_mst::graph::{make_graph, Edge, Weight, WeightedGraph, SCALE_SQ};
use avocado_mst::mst::find_mst;

fn s(x: &str) -> String {
    x.to_string()
}

fn d(frac: f64) -> Corr {
    Corr::Defined((frac * SCALE as f64).round() as i64)
}

fn weight_value(w: Weight) -> f64 {
    match w {
        Weight::Finite { corr_sq } => SCALE_SQ as f64 / corr_sq as f64,
        _ => panic!("not a finite weight"),
    }
}

/// Build a matrix over `n` regions named "R0".."Rn-1" from the upper
/// triangle `(i, j) -> correlation`; the diagonal is 1.0 unless listed in
/// `undefined_diag`.
fn matrix_from_pairs(n: usize, pairs: &[(usize, usize, Corr)], undefined_diag: &[usize]) -> CorrMatrix {
    let regions: Vec<String> = (0..n).map(|i| format!("R{}", i)).collect();
    let mut values = vec![Corr::Undefined; n * n];
    for i in 0..n {
        values[i * n + i] = if undefined_diag.contains(&i) {
            Corr::Undefined
        } else {
            d(1.0)
        };
    }
    for &(i, j, c) in pairs {
        values[i * n + j] = c;
        values[j * n + i] = c;
    }
    CorrMatrix::new(regions, values).unwrap()
}

#[test]
fn two_regions_full_correlation_single_edge_weight_one() {
    let m = matrix_from_pairs(2, &[(0, 1, d(1.0))], &[]);
    let g = make_graph(&m);
    let t = find_mst(&g).unwrap();
    assert_eq!(t.n, 2);
    assert_eq!(t.edges.len(), 1);
    assert_eq!((t.edges[0].u, t.edges[0].v), (0, 1));
    assert_eq!(weight_value(t.edges[0].weight), 1.0);
}

#[test]
fn two_regions_half_correlation_single_edge_weight_four() {
    let m = matrix_from_pairs(2, &[(0, 1, d(0.5))], &[]);
    let g = make_graph(&m);
    let t = find_mst(&g).unwrap();
    assert_eq!(t.edges.len(), 1);
    assert_eq!((t.edges[0].u, t.edges[0].v), (0, 1));
    assert_eq!(weight_value(t.edges[0].weight), 4.0);
}

#[test]
fn four_regions_exclude_infinite_edge() {
    // Weights: (0,1) ~ 2.23, (1,3) = 4, (0,2) ~ 9.18, (1,2) = 16,
    // (2,3) = 100, (0,3) = infinity. The tree picks the three cheapest
    // acyclic edges and never the infinite one.
    let m = matrix_from_pairs(
        4,
        &[
            (0, 1, d(0.67)),
            (0, 2, d(0.33)),
            (0, 3, d(0.0)),
            (1, 2, d(0.25)),
            (1, 3, d(0.5)),
            (2, 3, d(0.1)),
        ],
        &[],
    );
    let g = make_graph(&m);
    let t = find_mst(&g).unwrap();
    assert_eq!(t.edges.len(), 3);
    let pairs: Vec<(usize, usize)> = t.edges.iter().map(|e| (e.u, e.v)).collect();
    assert_eq!(pairs, vec![(0, 1), (1, 3), (0, 2)]);
    assert!(!pairs.contains(&(0, 3)));
}

#[test]
fn region_with_only_dead_edges_disconnects_the_graph() {
    // Region 3 has no finite-weight edge at all: zero correlation on every
    // pair. The engine must refuse to bridge it.
    let m = matrix_from_pairs(
        4,
        &[
            (0, 1, d(0.67)),
            (0, 2, d(0.33)),
            (0, 3, d(0.0)),
            (1, 2, d(0.25)),
            (1, 3, d(0.0)),
            (2, 3, d(0.0)),
        ],
        &[],
    );
    let g = make_graph(&m);
    assert!(matches!(
        find_mst(&g),
        Err(MstError::Disconnected { unreached: 1 })
    ));
}

#[test]
fn zero_variance_region_disconnects_the_graph() {
    // A constant price-delta series: every correlation involving region 2
    // is undefined, so every one of its edges is poisoned.
    let m = matrix_from_pairs(
        3,
        &[
            (0, 1, d(0.8)),
            (0, 2, Corr::Undefined),
            (1, 2, Corr::Undefined),
        ],
        &[2],
    );
    let g = make_graph(&m);
    assert!(matches!(
        find_mst(&g),
        Err(MstError::Disconnected { unreached: 1 })
    ));
}

#[test]
fn fully_connected_regions_give_spanning_tree() {
    // Five fully correlated regions: the tree must span all 5 nodes with
    // exactly 4 edges; equal weights are tie-broken deterministically.
    let mut pairs = Vec::new();
    for i in 0..5 {
        for j in (i + 1)..5 {
            pairs.push((i, j, d(0.5)));
        }
    }
    let m = matrix_from_pairs(5, &pairs, &[]);
    let g = make_graph(&m);
    let t = find_mst(&g).unwrap();
    assert_eq!(t.n, 5);
    assert_eq!(t.edges.len(), 4);
    let chosen: Vec<(usize, usize)> = t.edges.iter().map(|e| (e.u, e.v)).collect();
    assert_eq!(chosen, vec![(0, 1), (0, 2), (0, 3), (0, 4)]);
}

#[test]
fn single_region_gives_empty_tree() {
    let m = matrix_from_pairs(1, &[], &[]);
    let g = make_graph(&m);
    let t = find_mst(&g).unwrap();
    assert_eq!(t.n, 1);
    assert_eq!(t.edges.len(), 0);
}

#[test]
fn empty_graph_gives_empty_tree() {
    let m = CorrMatrix::new(Vec::new(), Vec::new()).unwrap();
    let g = make_graph(&m);
    let t = find_mst(&g).unwrap();
    assert_eq!(t.n, 0);
    assert_eq!(t.edges.len(), 0);
}

#[test]
fn permuted_edge_order_gives_identical_tree() {
    let m = matrix_from_pairs(
        4,
        &[
            (0, 1, d(0.67)),
            (0, 2, d(0.33)),
            (0, 3, d(0.9)),
            (1, 2, d(0.25)),
            (1, 3, d(0.5)),
            (2, 3, d(0.1)),
        ],
        &[],
    );
    let g = make_graph(&m);
    let reversed: Vec<Edge> = g.edges.iter().rev().copied().collect();
    let mut rotated: Vec<Edge> = g.edges.clone();
    rotated.rotate_left(2);
    let g_rev = WeightedGraph { n: g.n, edges: reversed };
    let g_rot = WeightedGraph { n: g.n, edges: rotated };

    let t0 = find_mst(&g).unwrap();
    let t1 = find_mst(&g_rev).unwrap();
    let t2 = find_mst(&g_rot).unwrap();
    assert_eq!(t0.edges, t1.edges);
    assert_eq!(t0.edges, t2.edges);
}

#[test]
fn running_twice_gives_identical_tree() {
    let m = matrix_from_pairs(
        3,
        &[(0, 1, d(0.9)), (0, 2, d(0.9)), (1, 2, d(0.9))],
        &[],
    );
    let g = make_graph(&m);
    let t0 = find_mst(&g).unwrap();
    let t1 = find_mst(&g).unwrap();
    assert_eq!(t0.edges, t1.edges);
}

/// Sum edge weights in a canonical order, so equal weight multisets give
/// bit-identical totals.
fn sorted_total(weights: impl Iterator<Item = f64>) -> f64 {
    let mut v: Vec<f64> = weights.collect();
    v.sort_by(|a, b| a.partial_cmp(b).unwrap());
    v.into_iter().sum()
}

/// A test-side union-find over node indices.
fn spans(n: usize, edges: &[&Edge]) -> bool {
    let mut comp: Vec<usize> = (0..n).collect();
    for e in edges {
        let (cu, cv) = (comp[e.u], comp[e.v]);
        if cu != cv {
            for c in comp.iter_mut() {
                if *c == cu {
                    *c = cv;
                }
            }
        }
    }
    comp.iter().all(|&c| c == comp[0])
}

#[test]
fn tree_weight_is_minimal_among_all_spanning_trees() {
    let m = matrix_from_pairs(
        4,
        &[
            (0, 1, d(0.67)),
            (0, 2, d(0.33)),
            (0, 3, d(0.9)),
            (1, 2, d(0.25)),
            (1, 3, d(0.5)),
            (2, 3, d(0.1)),
        ],
        &[],
    );
    let g = make_graph(&m);
    let t = find_mst(&g).unwrap();
    let tree_total = sorted_total(t.edges.iter().map(|e| weight_value(e.weight)));

    // Brute force: every 3-edge subset of the 6 edges that spans the graph.
    let n_edges = g.edges.len();
    let mut found_any = false;
    for mask in 0u32..(1 << n_edges) {
        if mask.count_ones() as usize != g.n - 1 {
            continue;
        }
        let subset: Vec<&Edge> = (0..n_edges)
            .filter(|k| mask & (1 << k) != 0)
            .map(|k| &g.edges[k])
            .collect();
        if !spans(g.n, &subset) {
            continue;
        }
        found_any = true;
        let total = sorted_total(subset.iter().map(|e| weight_value(e.weight)));
        assert!(tree_total <= total);
    }
    assert!(found_any);
}

#[test]
fn tree_weight_is_minimal_with_ties_five_regions() {
    // Five regions with repeated correlation values, so the scan meets
    // genuine weight ties; the tree must still be no heavier than any of
    // the C(10, 4) spanning candidates.
    let m = matrix_from_pairs(
        5,
        &[
            (0, 1, d(0.5)),
            (0, 2, d(0.5)),
            (0, 3, d(0.2)),
            (0, 4, d(0.8)),
            (1, 2, d(0.8)),
            (1, 3, d(0.4)),
            (1, 4, d(0.5)),
            (2, 3, d(0.6)),
            (2, 4, d(0.2)),
            (3, 4, d(0.4)),
        ],
        &[],
    );
    let g = make_graph(&m);
    let t = find_mst(&g).unwrap();
    assert_eq!(t.edges.len(), 4);
    let tree_total = sorted_total(t.edges.iter().map(|e| weight_value(e.weight)));

    let n_edges = g.edges.len();
    let mut best = f64::INFINITY;
    for mask in 0u32..(1 << n_edges) {
        if mask.count_ones() as usize != g.n - 1 {
            continue;
        }
        let subset: Vec<&Edge> = (0..n_edges)
            .filter(|k| mask & (1 << k) != 0)
            .map(|k| &g.edges[k])
            .collect();
        if !spans(g.n, &subset) {
            continue;
        }
        let total = sorted_total(subset.iter().map(|e| weight_value(e.weight)));
        assert!(tree_total <= total);
        if total < best {
            best = total;
        }
    }
    assert_eq!(tree_total, best);
}
