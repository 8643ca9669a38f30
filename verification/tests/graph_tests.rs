use graph::graph::{check_neighbors, get_neighbors, DenseMatrixGraph, Edge, GraphTrait, NEIGHBOR_CNT};
use graph::id::Id;

fn triangle() -> DenseMatrixGraph {
    let ids = vec![Id(0), Id(1), Id(2)];
    let weights = vec![vec![0, 5, 1], vec![5, 0, 2], vec![1, 2, 0]];
    DenseMatrixGraph::from_points(&ids, &weights, false)
}

#[test]
fn id_conversions() {
    let id: Id = Id::from(7usize);
    assert_eq!(id, Id(7));
    assert_eq!(usize::from(Id(9)), 9);
}

#[test]
fn edge_new_sets_fields() {
    let e = Edge::new(Id(1), Id(2), 42);
    assert_eq!(e.from, Id(1));
    assert_eq!(e.to, Id(2));
    assert_eq!(e.weight, 42);
}

#[test]
fn from_points_builds_complete_graph() {
    let g = triangle();
    assert_eq!(g.v(), 3);
    // the edge count is the number of rows
    assert_eq!(g.e(), 3);
    assert!(!g.directed());
    for i in 0..3usize {
        let row = g.edges(Id(i)).unwrap();
        assert_eq!(row.len(), 3);
        for j in 0..3usize {
            let e = g.edge(Id(i), Id(j)).unwrap();
            assert_eq!(e.from, Id(i));
            assert_eq!(e.to, Id(j));
        }
    }
    // weights[max][min]
    assert_eq!(g.edge(Id(0), Id(1)).unwrap().weight, 5);
    assert_eq!(g.edge(Id(2), Id(0)).unwrap().weight, 1);
    assert_eq!(g.edge(Id(1), Id(2)).unwrap().weight, 2);
    assert!(g.edge(Id(3), Id(0)).is_none());
    assert!(g.edges(Id(3)).is_none());
}

#[test]
fn from_points_uses_later_row_weight() {
    let ids = vec![Id(0), Id(1)];
    let weights = vec![vec![0, 4], vec![9, 0]];
    let g = DenseMatrixGraph::from_points(&ids, &weights, true);
    assert!(g.directed());
    assert_eq!(g.edge(Id(0), Id(1)).unwrap().weight, 9);
    assert_eq!(g.edge(Id(1), Id(0)).unwrap().weight, 9);
}

#[test]
fn insert_existing_edge_keeps_count_and_reads_back() {
    let mut g = triangle();
    let e = Edge::new(Id(0), Id(1), 7);
    g.insert(&e);
    assert_eq!(g.e(), 3);
    assert_eq!(g.edge(Id(0), Id(1)), Some(e));
    // the row of the target also stores the edge, under the target's own key
    assert_eq!(g.edge(Id(1), Id(1)), Some(e));
    // other rows are untouched
    assert_eq!(g.edge(Id(2), Id(0)).unwrap().weight, 1);
}

#[test]
fn insert_with_missing_row_opens_rows() {
    let mut g = triangle();
    let e = Edge::new(Id(5), Id(1), 3);
    g.insert(&e);
    assert_eq!(g.e(), 4);
    assert!(g.edge(Id(5), Id(1)).is_none());
    assert_eq!(g.edges(Id(5)).unwrap().len(), 0);
    assert_eq!(g.edge(Id(1), Id(1)), Some(e));

    let f = Edge::new(Id(0), Id(6), 3);
    g.insert(&f);
    assert_eq!(g.e(), 5);
    assert_eq!(g.edge(Id(0), Id(6)), Some(f));
    assert_eq!(g.edges(Id(6)).unwrap().len(), 0);
}

#[test]
fn remove_undirected_drops_both_directions() {
    let mut g = triangle();
    g.remove(&Edge::new(Id(0), Id(2), 0));
    assert_eq!(g.e(), 2);
    assert!(g.edge(Id(0), Id(2)).is_none());
    assert!(g.edge(Id(2), Id(0)).is_none());
    assert!(g.edge(Id(0), Id(1)).is_some());
    assert!(g.edges(Id(0)).is_some());
    // removing an absent edge changes nothing
    g.remove(&Edge::new(Id(0), Id(2), 0));
    assert_eq!(g.e(), 2);
}

#[test]
fn remove_directed_keeps_reverse() {
    let ids = vec![Id(0), Id(1)];
    let weights = vec![vec![0, 4], vec![4, 0]];
    let mut g = DenseMatrixGraph::from_points(&ids, &weights, true);
    g.remove(&Edge::new(Id(0), Id(1), 0));
    assert!(g.edge(Id(0), Id(1)).is_none());
    assert!(g.edge(Id(1), Id(0)).is_some());
    assert_eq!(g.e(), 1);
}

#[test]
fn neighbor_positions() {
    assert_eq!(get_neighbors(0, 8, 10), vec![0, 0, 8, 1, 7, 2, 6, 3, 5, 4]);
    assert_eq!(get_neighbors(9, 8, 10), vec![9, 0, 8, 1, 7, 2, 6, 3, 5, 4]);
    assert_eq!(get_neighbors(0, 8, 5), vec![0, 0, 3, 1, 2, 2, 1, 3, 0, 4]);
    assert!(check_neighbors(0, 8, 5));
    assert!(!check_neighbors(0, 8, 4));
    assert!(!check_neighbors(0, 8, 1usize << 40));
}

#[test]
fn neighbor_graph_rows() {
    let ids: Vec<Id> = (0..5).map(Id).collect();
    let weights: Vec<Vec<u64>> = (0..5u64).map(|i| (0..10u64).map(|k| 100 * i + k).collect()).collect();
    let g = DenseMatrixGraph::from_points_with_neighbors(&ids, &weights, false);
    assert_eq!(g.v(), 5);
    assert_eq!(g.e(), 5);
    assert_eq!(NEIGHBOR_CNT, 8);
    let row0 = g.edges(Id(0)).unwrap();
    assert_eq!(row0.len(), 5);
    // neighbours of 0 among 5: [0, 0, 3, 1, 2, 2, 1, 3, 0, 4]; the last occurrence wins
    assert_eq!(g.edge(Id(0), Id(0)).unwrap().weight, 8);
    assert_eq!(g.edge(Id(0), Id(3)).unwrap().weight, 7);
    assert_eq!(g.edge(Id(0), Id(1)).unwrap().weight, 6);
    assert_eq!(g.edge(Id(0), Id(2)).unwrap().weight, 5);
    assert_eq!(g.edge(Id(0), Id(4)).unwrap().weight, 9);
}

#[test]
fn empty_graph() {
    let g = DenseMatrixGraph::from_points(&vec![], &vec![], false);
    assert_eq!(g.v(), 0);
    assert_eq!(g.e(), 0);
    assert!(g.edges(Id(0)).is_none());
    let h = DenseMatrixGraph::from_points_with_neighbors(&vec![], &vec![], true);
    assert_eq!(h.v(), 0);
    assert!(h.directed());
}

#[test]
fn duplicate_ids_share_a_row() {
    // the later vertex with the same id starts the row afresh
    let ids = vec![Id(0), Id(1), Id(1)];
    let weights = vec![vec![0, 1, 2], vec![3, 4, 5], vec![6, 7, 8]];
    let g = DenseMatrixGraph::from_points(&ids, &weights, false);
    assert_eq!(g.v(), 3);
    assert_eq!(g.e(), 2);
    assert_eq!(g.edges(Id(1)).unwrap().len(), 2);
}
