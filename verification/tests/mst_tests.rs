use std::collections::BTreeSet;
use std::time::{SystemTime, UNIX_EPOCH};

use graph::graph::{check_neighbors, get_neighbors, DenseMatrixGraph, Edge, GraphTrait, NEIGHBOR_CNT};
use graph::id::Id;
use graph::mst::{check_targets, prim_mst_edges};
use graph::plot::mst_plot_chain;

#[derive(Debug, Clone)]
struct Point {
    id: usize,
    x: f64,
    y: f64,
}

fn dist(v: &Point, w: &Point) -> f64 {
    let x = f64::abs(v.x - w.x);
    let y = f64::abs(v.y - w.y);
    f64::sqrt(x.powi(2) + y.powi(2))
}

fn key(w: f64) -> u64 {
    if w < f64::MAX {
        if w <= 0.0 {
            0
        } else {
            w.to_bits()
        }
    } else {
        u64::MAX
    }
}

fn calc_avg(a: f64, b: f64) -> f64 {
    (a + b) / 2.0
}

fn neighbor_graph(vertices: &[Point]) -> DenseMatrixGraph {
    let ids: Vec<Id> = vertices.iter().map(|v| Id(v.id)).collect();
    let mut weights = vec![];
    for (i, v) in vertices.iter().enumerate() {
        assert!(check_neighbors(i, NEIGHBOR_CNT, vertices.len()));
        let nb = get_neighbors(i, NEIGHBOR_CNT, vertices.len());
        weights.push(nb.iter().map(|&j| key(dist(v, &vertices[j]))).collect::<Vec<u64>>());
    }
    DenseMatrixGraph::from_points_with_neighbors(&ids, &weights, false)
}

fn complete_graph(vertices: &[Point]) -> DenseMatrixGraph {
    let ids: Vec<Id> = vertices.iter().map(|v| Id(v.id)).collect();
    let weights: Vec<Vec<u64>> = vertices
        .iter()
        .map(|v| vertices.iter().map(|w| key(dist(v, w))).collect())
        .collect();
    DenseMatrixGraph::from_points(&ids, &weights, false)
}

fn random_points(n: usize) -> Vec<Point> {
    let mut vertices = vec![];
    for id_cnt in 0..n {
        let range = 0.0..3e+5;
        let x: f64 = rand::random_range(range.clone());
        let y: f64 = rand::random_range(range);
        vertices.push(Point { id: id_cnt, x, y });
    }
    vertices
}

fn triangle() -> DenseMatrixGraph {
    let ids = vec![Id(0), Id(1), Id(2)];
    let weights = vec![vec![0, 5, 1], vec![5, 0, 2], vec![1, 2, 0]];
    DenseMatrixGraph::from_points(&ids, &weights, false)
}

#[test]
fn prim_on_triangle() {
    let g = triangle();
    assert!(check_targets(&g));
    let (tree, ops) = prim_mst_edges(&g);
    assert_eq!(tree, vec![None, Some(Edge::new(Id(2), Id(1), 2)), Some(Edge::new(Id(0), Id(2), 1))]);
    // three rounds over three vertices, then three rows of three entries
    assert_eq!(ops, Some(18));
}

#[test]
fn prim_unreachable_vertex_joins_without_edge() {
    let mut g = triangle();
    g.remove(&Edge::new(Id(0), Id(2), 0));
    g.remove(&Edge::new(Id(1), Id(2), 0));
    let (tree, ops) = prim_mst_edges(&g);
    assert_eq!(tree, vec![None, Some(Edge::new(Id(0), Id(1), 5)), None]);
    // rows now hold two, two and one entries
    assert_eq!(ops, Some(14));
}

#[test]
fn prim_ties_take_lowest_index_and_earliest_parent() {
    // all weights equal: vertex 1 joins first, then 2, both from 0
    let ids = vec![Id(0), Id(1), Id(2)];
    let weights = vec![vec![3, 3, 3], vec![3, 3, 3], vec![3, 3, 3]];
    let g = DenseMatrixGraph::from_points(&ids, &weights, false);
    let (tree, _) = prim_mst_edges(&g);
    assert_eq!(tree, vec![None, Some(Edge::new(Id(0), Id(1), 3)), Some(Edge::new(Id(0), Id(2), 3))]);
}

#[test]
fn prim_never_takes_max_weight() {
    let ids = vec![Id(0), Id(1)];
    let weights = vec![vec![0, u64::MAX], vec![u64::MAX, 0]];
    let g = DenseMatrixGraph::from_points(&ids, &weights, false);
    assert_eq!(prim_mst_edges(&g), (vec![None, None], Some(8)));
}

#[test]
fn check_targets_rejects_far_edges() {
    let mut g = triangle();
    g.insert(&Edge::new(Id(0), Id(9), 1));
    assert!(!check_targets(&g));
}

#[test]
fn prim_light_edges_on_random_points() {
    let vertices = random_points(40);
    let g = complete_graph(&vertices);
    let (tree, ops) = prim_mst_edges(&g);
    assert_eq!(ops, Some(40 * 40 + 40 * 40));
    assert!(tree[0].is_none());
    for (x, e) in tree.iter().enumerate().skip(1) {
        let e = e.expect("every vertex of a complete graph joins through an edge");
        assert_eq!(e.to, Id(x));
        assert_eq!(g.edge(e.from, e.to).unwrap().weight, e.weight);
    }
}

#[test]
fn plot_chain_follows_tails() {
    // edges 0->1, 1->2, 2->3 at indices 1..3
    let tree = vec![
        None,
        Some(Edge::new(Id(0), Id(1), 1)),
        Some(Edge::new(Id(1), Id(2), 1)),
        Some(Edge::new(Id(2), Id(3), 1)),
    ];
    let known: BTreeSet<usize> = (0..4).collect();
    // pairs: (1,0), (0,1), (1,2), (2,3); start with 1, 0; then the pair into 0 is (1,0)
    let chain = mst_plot_chain(&tree, &known).unwrap();
    assert_eq!(chain, vec![Id(1), Id(0), Id(1), Id(0)]);
    let missing: BTreeSet<usize> = (1..4).collect();
    assert!(mst_plot_chain(&tree, &missing).is_none());
    assert!(mst_plot_chain(&vec![None], &known).is_none());
}

#[test]
fn prim_mst_with_const_edges_test() {
    for step in 1..=6 {
        let n = 5_usize.pow(step);
        test_mst_with_const_edges(n);
    }
}

fn test_mst_with_const_edges(n: usize) {
    let start = SystemTime::now().duration_since(UNIX_EPOCH).unwrap();
    let mut vertices = random_points(n);
    vertices.sort_by(|a, b| calc_avg(a.x, a.y).partial_cmp(&calc_avg(b.x, b.y)).unwrap());
    let graph = neighbor_graph(&vertices);
    let end = SystemTime::now().duration_since(UNIX_EPOCH).unwrap();
    let prepare_time = end.as_millis() - start.as_millis();

    let start = SystemTime::now().duration_since(UNIX_EPOCH).unwrap();
    assert!(check_targets(&graph));
    let (tree, ops) = prim_mst_edges(&graph);
    assert_eq!(tree.len(), graph.v());
    assert!(ops.is_some());
    let end = SystemTime::now().duration_since(UNIX_EPOCH).unwrap();
    let mst_time = end.as_millis() - start.as_millis();

    println!(
        "Prepare data and build graph: {} milliseconds;\nCalculate mst with N = {} vertices: {} milliseconds.",
        prepare_time, n, mst_time
    );
}

#[allow(dead_code)]
fn prim_mst_test() {
    for step in 1..=6 {
        let n = 5_usize.pow(step);
        test_mst(n);
    }
}

#[allow(dead_code)]
fn test_mst(n: usize) {
    let start = SystemTime::now().duration_since(UNIX_EPOCH).unwrap();
    let vertices = random_points(n);
    let graph = complete_graph(&vertices);
    let end = SystemTime::now().duration_since(UNIX_EPOCH).unwrap();
    let prepare_time = end.as_millis() - start.as_millis();

    let start = SystemTime::now().duration_since(UNIX_EPOCH).unwrap();
    let _ = prim_mst_edges(&graph);
    let end = SystemTime::now().duration_since(UNIX_EPOCH).unwrap();
    let mst_time = end.as_millis() - start.as_millis();

    println!(
        "Prepare data and build graph: {} milliseconds;\nCalculate mst with N = {} vertices: {} milliseconds.",
        prepare_time, n, mst_time
    );
}

#[test]
fn prim_tree_weighs_no_more_than_any_spanning_tree() {
    for _round in 0..20 {
        let vertices = random_points(5);
        let g = complete_graph(&vertices);
        let (tree, _) = prim_mst_edges(&g);
        let prim_total: u128 = tree.iter().flatten().map(|e| e.weight as u128).sum();
        let n = vertices.len();
        let mut best = u128::MAX;
        let mut par = vec![0usize; n];
        // every parent array for the vertices 1..n
        let combos = n.pow((n - 1) as u32);
        for code in 0..combos {
            let mut c = code;
            for x in 1..n {
                par[x] = c % n;
                c /= n;
            }
            // every vertex must reach the root 0
            let rooted = (1..n).all(|x| {
                let mut v = x;
                for _ in 0..n {
                    if v == 0 {
                        break;
                    }
                    v = par[v];
                }
                v == 0
            });
            if !rooted {
                continue;
            }
            let total: u128 = (1..n)
                .map(|x| g.edge(Id(par[x]), Id(x)).unwrap().weight as u128)
                .sum();
            assert!(prim_total <= total);
            best = best.min(total);
        }
        assert_eq!(prim_total, best);
    }
}
