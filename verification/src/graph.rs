//! Weighted graphs stored as an adjacency matrix of ordered maps.
//!
//! A weight is an order key: the library only carries weights and compares
//! them, so any quantity with a total order that maps into `u64` (such as
//! the bit patterns of non-negative floating-point lengths) can stand there.

use vstd::prelude::*;
use std::collections::BTreeMap;
use crate::id::Id;

verus! {

/// A directed edge from `from` to `to` with an order key as its weight.
#[derive(Clone, Copy, Debug, PartialEq, Eq, Structural, PartialOrd)]
pub struct Edge {
    pub from: Id,
    pub to: Id,
    pub weight: u64,
}

impl Edge {
    /// The edge from `v` to `w` of weight `weight`.
    pub fn new(v: Id, w: Id, weight: u64) -> (r: Edge)
        ensures
            r == (Edge { from: v, to: w, weight }),
    {
        Self { from: v, to: w, weight }
    }
}

/// The rows of an adjacency matrix: for each source vertex, its edges by key.
pub type Rows = Map<usize, Map<usize, Edge>>;

/// `rows` stores an edge under source `v` and key `w`.
pub open spec fn stores(rows: Rows, v: usize, w: usize) -> bool {
    rows.contains_key(v) && rows[v].contains_key(w)
}

/// The edge stored under source `v` and key `w`, if any.
pub open spec fn stored_edge(rows: Rows, v: usize, w: usize) -> Option<Edge> {
    if stores(rows, v, w) {
        Some(rows[v][w])
    } else {
        None
    }
}

/// Stores `e` under `row` and `key` when the row exists; otherwise creates
/// the row empty.
pub open spec fn put_or_open_row(rows: Rows, row: usize, key: usize, e: Edge) -> Rows {
    if rows.contains_key(row) {
        rows.insert(row, rows[row].insert(key, e))
    } else {
        rows.insert(row, Map::empty())
    }
}

/// The rows after `insert(e)`: `e` goes into the row of its source under
/// the key of its target, and into the row of its target under that same
/// key; a missing row is created empty instead.
pub open spec fn rows_after_insert(rows: Rows, e: Edge) -> Rows {
    put_or_open_row(put_or_open_row(rows, e.from.0, e.to.0, e), e.to.0, e.to.0, e)
}

/// Removes `key` from `row` when the row exists.
pub open spec fn drop_from_row(rows: Rows, row: usize, key: usize) -> Rows {
    if rows.contains_key(row) {
        rows.insert(row, rows[row].remove(key))
    } else {
        rows
    }
}

/// The rows after `remove(e)`: the edge from `e.from` to `e.to` goes, and
/// in an undirected graph the one from `e.to` to `e.from` too.
pub open spec fn rows_after_remove(rows: Rows, e: Edge, directed: bool) -> Rows {
    let r = drop_from_row(rows, e.from.0, e.to.0);
    if directed {
        r
    } else {
        drop_from_row(r, e.to.0, e.from.0)
    }
}

/// An inserted edge reads back: after `insert(e)` on a graph that has a row
/// for `e.from`, `edge(e.from, e.to)` is `e`.
pub proof fn law_insert_then_edge(rows: Rows, e: Edge)
    requires
        rows.contains_key(e.from.0),
    ensures
        stored_edge(rows_after_insert(rows, e), e.from.0, e.to.0) == Some(e),
{
}

/// `insert(e)` changes only the rows of `e.from` and `e.to`.
pub proof fn law_insert_touches_endpoints(rows: Rows, e: Edge, r: usize)
    requires
        r != e.from.0,
        r != e.to.0,
    ensures
        rows_after_insert(rows, e).contains_key(r) == rows.contains_key(r),
        rows.contains_key(r) ==> rows_after_insert(rows, e)[r] == rows[r],
{
}

/// What `insert(e)` does to every entry of the matrix: the rows of `e.from`
/// and `e.to` are there afterwards (created empty where missing); `e` is
/// stored under `e.from` and key `e.to` when the row of `e.from` existed,
/// and under `e.to` and key `e.to` when the row of `e.to` existed or is the
/// row of `e.from`; every other entry of every row that existed is kept,
/// and a row that is created holds no other entry.
pub proof fn law_insert_effect(rows: Rows, e: Edge, a: usize, b: usize)
    ensures
        rows_after_insert(rows, e).dom() == rows.dom().insert(e.from.0).insert(e.to.0),
        rows.contains_key(e.from.0) ==> stored_edge(rows_after_insert(rows, e), e.from.0, e.to.0) == Some(e),
        rows.contains_key(e.to.0) || e.to.0 == e.from.0 ==> stored_edge(rows_after_insert(rows, e), e.to.0, e.to.0)
            == Some(e),
        !rows.contains_key(e.from.0) && e.from.0 != e.to.0 ==> stored_edge(rows_after_insert(rows, e), e.from.0, e.to.0)
            is None,
        !rows.contains_key(e.to.0) && e.to.0 != e.from.0 ==> stored_edge(rows_after_insert(rows, e), e.to.0, e.to.0)
            is None,
        !(a == e.from.0 && b == e.to.0) && !(a == e.to.0 && b == e.to.0) ==> stored_edge(rows_after_insert(rows, e), a, b)
            == stored_edge(rows, a, b),
{
    assert(rows_after_insert(rows, e).dom() =~= rows.dom().insert(e.from.0).insert(e.to.0));
}

/// What `remove(e)` does to every entry of the matrix: the entry under
/// `e.from` and key `e.to` goes, and in an undirected graph the one under
/// `e.to` and key `e.from` too; every other entry is kept.
pub proof fn law_remove_effect(rows: Rows, e: Edge, directed: bool, a: usize, b: usize)
    ensures
        stored_edge(rows_after_remove(rows, e, directed), a, b) == if (a == e.from.0 && b == e.to.0) || (!directed
            && a == e.to.0 && b == e.from.0) {
            None
        } else {
            stored_edge(rows, a, b)
        },
{
}

/// A removed edge is gone: after `remove(e)`, `edge(e.from, e.to)` is
/// `None`, and in an undirected graph `edge(e.to, e.from)` is too.
pub proof fn law_remove_then_edge(rows: Rows, e: Edge, directed: bool)
    ensures
        stored_edge(rows_after_remove(rows, e, directed), e.from.0, e.to.0) is None,
        !directed ==> stored_edge(rows_after_remove(rows, e, directed), e.to.0, e.from.0) is None,
{
}

/// `remove(e)` changes no other row than those of `e.from` and `e.to`, and
/// never adds or drops a row.
pub proof fn law_remove_keeps_rows(rows: Rows, e: Edge, directed: bool, r: usize)
    ensures
        rows_after_remove(rows, e, directed).dom() == rows.dom(),
        r != e.from.0 && r != e.to.0 && rows.contains_key(r) ==> rows_after_remove(rows, e, directed)[r] == rows[r],
{
    assert(rows_after_remove(rows, e, directed).dom() =~= rows.dom());
}

/// The operations of a graph over identified vertices.
pub trait GraphTrait {
    /// The number of edges that the graph counts.
    spec fn edge_count(&self) -> int;

    /// Whether an edge from `v` to `w` is stored.
    spec fn has_edge(&self, v: usize, w: usize) -> bool;

    /// The number of vertices.
    fn v(&self) -> usize;

    /// The number of edges.
    fn e(&self) -> (r: usize)
        ensures
            r == self.edge_count(),
    ;

    /// Whether edges have a direction.
    fn directed(&self) -> bool;

    /// Adds `edge`, counting it when it was not stored yet.
    fn insert(&mut self, edge: &Edge)
        requires
            !old(self).has_edge(edge.from.0, edge.to.0) ==> old(self).edge_count() < usize::MAX,
    ;

    /// Removes `edge`, uncounting it when it was stored.
    fn remove(&mut self, edge: &Edge)
        requires
            old(self).has_edge(edge.from.0, edge.to.0) ==> old(self).edge_count() > 0,
    ;

    /// The edge from `v_id` to `w_id`, if stored.
    fn edge(&self, v_id: Id, w_id: Id) -> Option<Edge>;

    /// The edges leaving `v_id`, by key, if `v_id` has a row.
    fn edges(&self, v_id: Id) -> Option<BTreeMap<usize, Edge>>;
}

/// The rows that an adjacency matrix holds.
pub open spec fn rows_of(m: BTreeMap<usize, BTreeMap<usize, Edge>>) -> Rows {
    m@.map_values(|r: BTreeMap<usize, Edge>| r@)
}

/// Stores `e` under `row` and `key` when the row exists.
pub open spec fn put_into_row(rows: Rows, row: usize, key: usize, e: Edge) -> Rows {
    if rows.contains_key(row) {
        rows.insert(row, rows[row].insert(key, e))
    } else {
        rows
    }
}

/// Stores `e` under `row` and `key` of `matrix` when the row exists.
fn matrix_put(matrix: &mut BTreeMap<usize, BTreeMap<usize, Edge>>, row: usize, key: usize, e: Edge)
    ensures
        rows_of(*final(matrix)) == put_into_row(rows_of(*old(matrix)), row, key, e),
{
    let ghost r0 = rows_of(*matrix);
    if let Some(mut edges) = matrix.remove(&row) {
        edges.insert(key, e);
        matrix.insert(row, edges);
    }
    assert(rows_of(*matrix) =~= put_into_row(r0, row, key, e));
}

/// A graph stored as a map from each source vertex to its edges by key.
#[derive(Debug)]
pub struct DenseMatrixGraph {
    v_cnt: usize,
    e_cnt: usize,
    directed: bool,
    matrix: BTreeMap<usize, BTreeMap<usize, Edge>>,
}

impl DenseMatrixGraph {
    /// The stored edges, row by row.
    pub closed spec fn rows(&self) -> Rows {
        rows_of(self.matrix)
    }

    /// The vertex count that the graph was built with.
    pub closed spec fn vertex_count(&self) -> usize {
        self.v_cnt
    }

    /// Whether the graph was built as directed.
    pub closed spec fn is_directed(&self) -> bool {
        self.directed
    }
}

/// One inner step of the complete-graph construction: the edge from vertex
/// `i` to vertex `j` goes into the row of `i`, and the reverse edge into the
/// row of `j` when that row already exists; both carry `weights[i][j]`.
pub open spec fn complete_step(rows: Rows, ids: Seq<Id>, weights: Seq<Vec<u64>>, i: int, j: int) -> Rows {
    let vi = ids[i];
    let vj = ids[j];
    let w = weights[i]@[j];
    let r1 = put_into_row(rows, vi.0, vj.0, Edge { from: vi, to: vj, weight: w });
    put_into_row(r1, vj.0, vi.0, Edge { from: vj, to: vi, weight: w })
}

/// The rows after the first `j` inner steps for vertex `i`.
pub open spec fn complete_inner(rows: Rows, ids: Seq<Id>, weights: Seq<Vec<u64>>, i: int, j: int) -> Rows
    decreases j,
{
    if j <= 0 {
        rows
    } else {
        complete_step(complete_inner(rows, ids, weights, i, j - 1), ids, weights, i, j - 1)
    }
}

/// The rows after the first `i` vertices were processed: each vertex in
/// turn gets a fresh empty row, then one inner step per vertex.
pub open spec fn complete_rows(ids: Seq<Id>, weights: Seq<Vec<u64>>, i: int) -> Rows
    decreases i,
{
    if i <= 0 {
        Map::empty()
    } else {
        let r = complete_rows(ids, weights, i - 1).insert(ids[i - 1].0, Map::empty());
        complete_inner(r, ids, weights, i - 1, ids.len() as int)
    }
}

/// Position `left` of the `i`-th neighbour pair of position `n` among `len`
/// positions: `n - i`, or counted back from the end when that is negative.
pub open spec fn left_neighbor(n: int, i: int, len: int) -> int {
    if n - i >= 0 {
        n - i
    } else {
        len - i - 1
    }
}

/// Position `right` of the `i`-th neighbour pair: `n + i` while it stays
/// below the last position, and `i` otherwise.
pub open spec fn right_neighbor(n: int, i: int, len: int) -> int {
    if n + i < len - 1 {
        n + i
    } else {
        i
    }
}

/// The neighbour computation for position `n` stays within 32-bit integers
/// and every position it yields lies among the `len` positions.
pub open spec fn neighbors_fit(n: int, cnt: int, len: int) -> bool {
    &&& 0 <= n <= i32::MAX
    &&& 0 <= cnt <= i32::MAX
    &&& 0 <= len <= i32::MAX
    &&& forall|i: int| 0 <= i <= cnt / 2 ==> #[trigger] pair_fits(n, i, len)
}

/// Pair `i` of the neighbours of position `n` is computed without leaving
/// 32-bit integers, and both its positions lie among the `len` positions.
pub open spec fn pair_fits(n: int, i: int, len: int) -> bool {
    &&& n + i <= i32::MAX
    &&& 0 <= left_neighbor(n, i, len) < len
    &&& 0 <= right_neighbor(n, i, len) < len
}

/// The neighbour positions of position `n`: for `i` from 0 to `cnt / 2`,
/// the left then the right position of pair `i`.
pub open spec fn neighbor_seq(n: int, cnt: int, len: int) -> Seq<usize> {
    Seq::new(
        (2 * (cnt / 2 + 1)) as nat,
        |k: int|
            if k % 2 == 0 {
                left_neighbor(n, k / 2, len) as usize
            } else {
                right_neighbor(n, k / 2, len) as usize
            },
    )
}

/// The neighbour positions of position `n` among `len` positions come in
/// `cnt / 2 + 1` pairs. Pair `i` holds, on the left, `n - i` when that is
/// not negative and `len - i - 1` otherwise, and on the right, `n + i` while
/// that stays below the last position `len - 1` and `i` otherwise.
pub proof fn law_neighbor_positions(n: int, cnt: int, len: int, i: int)
    requires
        0 <= cnt,
        0 <= i <= cnt / 2,
    ensures
        neighbor_seq(n, cnt, len).len() == 2 * (cnt / 2 + 1),
        0 <= n - i <= usize::MAX ==> neighbor_seq(n, cnt, len)[2 * i] == n - i,
        n - i < 0 && 0 <= len - i - 1 <= usize::MAX ==> neighbor_seq(n, cnt, len)[2 * i] == len - i - 1,
        0 <= n + i < len - 1 && n + i <= usize::MAX ==> neighbor_seq(n, cnt, len)[2 * i + 1] == n + i,
        n + i >= len - 1 && i <= usize::MAX ==> neighbor_seq(n, cnt, len)[2 * i + 1] == i,
{
    assert((2 * i) % 2 == 0 && (2 * i) / 2 == i);
    assert((2 * i + 1) % 2 == 1 && (2 * i + 1) / 2 == i);
}

/// The number of neighbours that the neighbour construction takes around
/// each vertex.
pub const NEIGHBOR_CNT: usize = 8;

/// The row of vertex `i` after its first `k` neighbour edges were stored:
/// the edge to neighbour `k` carries `w[k]`, and a later neighbour with the
/// same key replaces an earlier one.
pub open spec fn neighbor_row(ids: Seq<Id>, nb: Seq<usize>, w: Seq<u64>, i: int, k: int) -> Map<usize, Edge>
    decreases k,
{
    if k <= 0 {
        Map::empty()
    } else {
        neighbor_row(ids, nb, w, i, k - 1).insert(
            ids[nb[k - 1] as int].0,
            Edge { from: ids[i], to: ids[nb[k - 1] as int], weight: w[k - 1] },
        )
    }
}

/// The rows after the first `i` vertices were processed by the neighbour
/// construction: each vertex in turn gets a fresh row holding the edges to
/// its neighbours.
pub open spec fn neighbor_rows(ids: Seq<Id>, weights: Seq<Vec<u64>>, i: int) -> Rows
    decreases i,
{
    if i <= 0 {
        Map::empty()
    } else {
        let nb = neighbor_seq(i - 1, NEIGHBOR_CNT as int, ids.len() as int);
        neighbor_rows(ids, weights, i - 1).insert(
            ids[i - 1].0,
            neighbor_row(ids, nb, weights[i - 1]@, i - 1, nb.len() as int),
        )
    }
}

/// Whether the neighbour computation for position `n` stays within 32-bit
/// integers and yields only positions among the `len` positions.
pub fn check_neighbors(n: usize, neighbor_cnt: usize, len: usize) -> (r: bool)
    ensures
        r == neighbors_fit(n as int, neighbor_cnt as int, len as int),
{
    if n > 0x7fff_ffff || neighbor_cnt > 0x7fff_ffff || len > 0x7fff_ffff {
        return false;
    }
    let half = neighbor_cnt / 2;
    let mut i: usize = 0;
    while i <= half
        invariant
            n <= i32::MAX,
            neighbor_cnt <= i32::MAX,
            len <= i32::MAX,
            half == neighbor_cnt / 2,
            i <= half + 1,
            forall|k: int| 0 <= k < i ==> #[trigger] pair_fits(n as int, k, len as int),
        decreases half + 1 - i,
    {
        let fits = n + i <= 0x7fff_ffff && (if n >= i { n - i < len } else { i < len }) && (if n + i + 1 < len {
            true
        } else {
            i < len
        });
        if !fits {
            assert(!pair_fits(n as int, i as int, len as int));
            return false;
        }
        i += 1;
    }
    true
}

/// The positions of the neighbours of position `n` among `len` positions
/// (`neighbor_cnt / 2 + 1` pairs, each a left and a right position).
pub fn get_neighbors(n: usize, neighbor_cnt: usize, len: usize) -> (r: Vec<usize>)
    requires
        neighbors_fit(n as int, neighbor_cnt as int, len as int),
    ensures
        r@ == neighbor_seq(n as int, neighbor_cnt as int, len as int),
        r@.len() == 2 * (neighbor_cnt / 2 + 1),
        forall|i: int|
            #![trigger r@[2 * i]]
            0 <= i <= neighbor_cnt / 2 ==> r@[2 * i] == if n >= i {
                n - i
            } else {
                len - i - 1
            },
        forall|i: int|
            #![trigger r@[2 * i + 1]]
            0 <= i <= neighbor_cnt / 2 ==> r@[2 * i + 1] == if n + i < len - 1 {
                n + i
            } else {
                i
            },
{
    let ghost (n0, c0, l0) = (n as int, neighbor_cnt as int, len as int);
    let n = n as i32;
    let neighbor_cnt = neighbor_cnt as i32;
    let len = len as i32;
    let mut result: Vec<usize> = Vec::new();
    let mut i: i32 = 0;
    while i <= neighbor_cnt / 2
        invariant
            0 <= i <= neighbor_cnt / 2 + 1,
            n == n0,
            neighbor_cnt == c0,
            len == l0,
            neighbors_fit(n0, c0, l0),
            result@.len() == 2 * i,
            forall|k: int| 0 <= k < 2 * i ==> result@[k] == neighbor_seq(n0, c0, l0)[k],
        decreases neighbor_cnt / 2 + 1 - i,
    {
        assert(pair_fits(n0, i as int, l0));
        let left_n: i32 = if (n - i) >= 0 {
            n - i
        } else {
            len - i - 1
        };
        let right_n = if (n + i) < (len - 1) {
            n + i
        } else {
            i
        };
        let left_n = left_n as usize;
        let right_n = right_n as usize;
        result.push(left_n);
        result.push(right_n);
        i += 1;
    }
    assert(result@ =~= neighbor_seq(n0, c0, l0));
    proof {
        assert forall|i: int| 0 <= i <= c0 / 2 implies #[trigger] result@[2 * i] == (if n0 >= i {
            n0 - i
        } else {
            l0 - i - 1
        }) && result@[2 * i + 1] == (if n0 + i < l0 - 1 {
            n0 + i
        } else {
            i
        }) by {
            assert(pair_fits(n0, i, l0));
            law_neighbor_positions(n0, c0, l0, i);
        }
    }
    result
}

/// The ids are pairwise distinct.
pub open spec fn distinct_ids(ids: Seq<Id>) -> bool {
    forall|p: int, q: int| 0 <= p < ids.len() && 0 <= q < ids.len() && p != q ==> ids[p].0 != ids[q].0
}

/// The weight that the edge between positions `p` and `q` carries once the
/// first `i` vertices were processed.
spec fn weight_after(weights: Seq<Vec<u64>>, p: int, q: int, i: int) -> u64 {
    if p < q < i {
        weights[q]@[p]
    } else {
        weights[p]@[q]
    }
}

/// The rows after the first `i` vertices of the complete construction.
spec fn complete_after(rows: Rows, ids: Seq<Id>, weights: Seq<Vec<u64>>, i: int) -> bool {
    let n = ids.len() as int;
    &&& forall|r: usize| #[trigger] rows.contains_key(r) <==> exists|p: int| 0 <= p < i && ids[p].0 == r
    &&& forall|p: int, q: int|
        0 <= p < i && 0 <= q < n ==> #[trigger] rows[ids[p].0].contains_key(ids[q].0) && rows[ids[p].0][ids[q].0]
            == Edge { from: ids[p], to: ids[q], weight: weight_after(weights, p, q, i) }
    &&& forall|p: int, k: usize|
        0 <= p < i && #[trigger] rows[ids[p].0].contains_key(k) ==> exists|q: int| 0 <= q < n && ids[q].0 == k
}

/// The rows after the first `j` inner steps for vertex `i`.
spec fn complete_during(rows: Rows, ids: Seq<Id>, weights: Seq<Vec<u64>>, i: int, j: int) -> bool {
    let n = ids.len() as int;
    &&& forall|r: usize| #[trigger] rows.contains_key(r) <==> exists|p: int| 0 <= p <= i && ids[p].0 == r
    &&& forall|q: int|
        0 <= q < j ==> #[trigger] rows[ids[i].0].contains_key(ids[q].0) && rows[ids[i].0][ids[q].0] == Edge {
            from: ids[i],
            to: ids[q],
            weight: weights[i]@[q],
        }
    &&& forall|k: usize| #[trigger] rows[ids[i].0].contains_key(k) ==> exists|q: int| 0 <= q < j && ids[q].0 == k
    &&& forall|p: int, q: int|
        0 <= p < i && 0 <= q < n ==> #[trigger] rows[ids[p].0].contains_key(ids[q].0) && rows[ids[p].0][ids[q].0]
            == Edge { from: ids[p], to: ids[q], weight: weight_during(weights, p, q, i, j) }
    &&& forall|p: int, k: usize|
        0 <= p < i && #[trigger] rows[ids[p].0].contains_key(k) ==> exists|q: int| 0 <= q < n && ids[q].0 == k
}

/// The weight that the edge from position `p` to position `q` carries
/// after the first `j` inner steps for vertex `i`.
spec fn weight_during(weights: Seq<Vec<u64>>, p: int, q: int, i: int, j: int) -> u64 {
    if q == i {
        if p < j {
            weights[i]@[p]
        } else {
            weights[p]@[i]
        }
    } else {
        weight_after(weights, p, q, i)
    }
}

#[verifier::spinoff_prover]
#[verifier::rlimit(50)]
proof fn lemma_complete_start(rows: Rows, ids: Seq<Id>, weights: Seq<Vec<u64>>, i: int)
    requires
        distinct_ids(ids),
        weights.len() == ids.len(),
        forall|p: int| 0 <= p < ids.len() ==> #[trigger] weights[p].len() == ids.len(),
        0 <= i < ids.len(),
        complete_after(rows, ids, weights, i),
    ensures
        complete_during(rows.insert(ids[i].0, Map::empty()), ids, weights, i, 0),
{
    let n = ids.len() as int;
    let start = rows.insert(ids[i].0, Map::empty());
    assert forall|r: usize| #[trigger] start.contains_key(r) <==> exists|p: int| 0 <= p <= i && ids[p].0 == r by {
        if start.contains_key(r) && r != ids[i].0 {
            assert(rows.contains_key(r));
            let p = choose|p: int| 0 <= p < i && ids[p].0 == r;
        }
        if exists|p: int| 0 <= p <= i && ids[p].0 == r {
            let p = choose|p: int| 0 <= p <= i && ids[p].0 == r;
            if p < i {
                assert(rows.contains_key(r));
            }
        }
    }
    assert forall|p: int, q: int| 0 <= p < i && 0 <= q < n implies #[trigger] start[ids[p].0].contains_key(ids[q].0)
        && start[ids[p].0][ids[q].0] == (Edge { from: ids[p], to: ids[q], weight: weight_during(weights, p, q, i, 0) }) by {
        assert(ids[p].0 != ids[i].0);
        assert(rows[ids[p].0].contains_key(ids[q].0));
    }
    assert forall|p: int, k: usize| 0 <= p < i && #[trigger] start[ids[p].0].contains_key(k) implies exists|q: int|
        0 <= q < n && ids[q].0 == k by {
        assert(ids[p].0 != ids[i].0);
        assert(rows[ids[p].0].contains_key(k));
    }
}

#[verifier::spinoff_prover]
#[verifier::rlimit(50)]
proof fn lemma_complete_step(prev: Rows, ids: Seq<Id>, weights: Seq<Vec<u64>>, i: int, j: int)
    requires
        distinct_ids(ids),
        weights.len() == ids.len(),
        forall|p: int| 0 <= p < ids.len() ==> #[trigger] weights[p].len() == ids.len(),
        0 <= i < ids.len(),
        1 <= j <= ids.len(),
        complete_during(prev, ids, weights, i, j - 1),
    ensures
        complete_during(complete_step(prev, ids, weights, i, j - 1), ids, weights, i, j),
{
    let n = ids.len() as int;
    let q0 = j - 1;
    let vi = ids[i];
    let vj = ids[q0];
    let w = weights[i]@[q0];
    assert(prev.contains_key(vi.0));
    let r1 = put_into_row(prev, vi.0, vj.0, Edge { from: vi, to: vj, weight: w });
    let r2 = put_into_row(r1, vj.0, vi.0, Edge { from: vj, to: vi, weight: w });
    assert(complete_step(prev, ids, weights, i, q0) == r2);
    assert(r1.dom() =~= prev.dom());
    assert(r2.dom() =~= prev.dom());
    if q0 <= i {
        assert(prev.contains_key(vj.0));
    } else {
        assert(!prev.contains_key(vj.0)) by {
            if prev.contains_key(vj.0) {
                let p = choose|p: int| 0 <= p <= i && ids[p].0 == vj.0;
            }
        }
    }
    assert forall|r: usize| #[trigger] r2.contains_key(r) <==> exists|p: int| 0 <= p <= i && ids[p].0 == r by {
        assert(prev.contains_key(r) == r2.contains_key(r));
    }
    assert forall|q: int| 0 <= q < j implies #[trigger] r2[ids[i].0].contains_key(ids[q].0) && r2[ids[i].0][ids[q].0]
        == (Edge { from: ids[i], to: ids[q], weight: weights[i]@[q] }) by {
        if q < q0 {
            assert(prev[ids[i].0].contains_key(ids[q].0));
            assert(ids[q].0 != vj.0);
        }
    }
    assert forall|k: usize| #[trigger] r2[ids[i].0].contains_key(k) implies exists|q: int| 0 <= q < j && ids[q].0 == k by {
        if k != vj.0 && !(q0 == i && k == vi.0) {
            assert(prev[ids[i].0].contains_key(k));
            let q = choose|q: int| 0 <= q < q0 && ids[q].0 == k;
        }
    }
    assert forall|p: int, q: int| 0 <= p < i && 0 <= q < n implies #[trigger] r2[ids[p].0].contains_key(ids[q].0)
        && r2[ids[p].0][ids[q].0] == (Edge { from: ids[p], to: ids[q], weight: weight_during(weights, p, q, i, j) }) by {
        assert(ids[p].0 != vi.0);
        assert(prev[ids[p].0].contains_key(ids[q].0));
        assert(prev[ids[p].0][ids[q].0] == (Edge {
            from: ids[p],
            to: ids[q],
            weight: weight_during(weights, p, q, i, j - 1),
        }));
        if p == q0 {
            assert(vj.0 == ids[p].0);
        } else {
            assert(ids[p].0 != vj.0);
        }
    }
    assert forall|p: int, k: usize| 0 <= p < i && #[trigger] r2[ids[p].0].contains_key(k) implies exists|q: int|
        0 <= q < n && ids[q].0 == k by {
        assert(ids[p].0 != vi.0);
        if p == q0 {
            if k != vi.0 {
                assert(prev[ids[p].0].contains_key(k));
            }
        } else {
            assert(ids[p].0 != vj.0);
            assert(prev[ids[p].0].contains_key(k));
        }
    }
}

proof fn lemma_complete_inner(rows: Rows, ids: Seq<Id>, weights: Seq<Vec<u64>>, i: int, j: int)
    requires
        distinct_ids(ids),
        weights.len() == ids.len(),
        forall|p: int| 0 <= p < ids.len() ==> #[trigger] weights[p].len() == ids.len(),
        0 <= i < ids.len(),
        0 <= j <= ids.len(),
        complete_after(rows, ids, weights, i),
    ensures
        complete_during(complete_inner(rows.insert(ids[i].0, Map::empty()), ids, weights, i, j), ids, weights, i, j),
    decreases j,
{
    let start = rows.insert(ids[i].0, Map::empty());
    if j == 0 {
        lemma_complete_start(rows, ids, weights, i);
    } else {
        lemma_complete_inner(rows, ids, weights, i, j - 1);
        lemma_complete_step(complete_inner(start, ids, weights, i, j - 1), ids, weights, i, j);
    }
}

#[verifier::spinoff_prover]
#[verifier::rlimit(50)]
proof fn lemma_complete_rows(ids: Seq<Id>, weights: Seq<Vec<u64>>, i: int)
    requires
        distinct_ids(ids),
        weights.len() == ids.len(),
        forall|p: int| 0 <= p < ids.len() ==> #[trigger] weights[p].len() == ids.len(),
        0 <= i <= ids.len(),
    ensures
        complete_after(complete_rows(ids, weights, i), ids, weights, i),
    decreases i,
{
    let n = ids.len() as int;
    if i > 0 {
        lemma_complete_rows(ids, weights, i - 1);
        let prev = complete_rows(ids, weights, i - 1);
        lemma_complete_inner(prev, ids, weights, i - 1, n);
        let r = complete_rows(ids, weights, i);
        assert forall|p: int, q: int| 0 <= p < i && 0 <= q < n implies #[trigger] r[ids[p].0].contains_key(ids[q].0)
            && r[ids[p].0][ids[q].0] == (Edge { from: ids[p], to: ids[q], weight: weight_after(weights, p, q, i) }) by {
            if p < i - 1 {
                assert(r[ids[p].0].contains_key(ids[q].0));
            } else {
                assert(r[ids[i - 1].0].contains_key(ids[q].0));
            }
        }
        assert forall|p: int, k: usize| 0 <= p < i && #[trigger] r[ids[p].0].contains_key(k) implies exists|q: int|
            0 <= q < n && ids[q].0 == k by {
            if p == i - 1 {
                let q = choose|q: int| 0 <= q < n && ids[q].0 == k;
            }
        }
    }
}

/// `from_points` builds the complete graph: when the ids are distinct,
/// there is a row for every vertex and no other, each row holds an edge to
/// every vertex and nothing else, and the edge between positions `i` and
/// `j` weighs `weights[max(i, j)][min(i, j)]` in both directions.
pub proof fn law_from_points_complete(ids: Seq<Id>, weights: Seq<Vec<u64>>, i: int, j: int, r: usize, k: usize)
    requires
        distinct_ids(ids),
        weights.len() == ids.len(),
        forall|p: int| 0 <= p < ids.len() ==> #[trigger] weights[p].len() == ids.len(),
        0 <= i < ids.len(),
        0 <= j < ids.len(),
    ensures
        complete_rows(ids, weights, ids.len() as int).contains_key(r) <==> exists|p: int|
            0 <= p < ids.len() && ids[p].0 == r,
        stored_edge(complete_rows(ids, weights, ids.len() as int), ids[i].0, ids[j].0) == Some(
            Edge {
                from: ids[i],
                to: ids[j],
                weight: if i < j {
                    weights[j]@[i]
                } else {
                    weights[i]@[j]
                },
            },
        ),
        stores(complete_rows(ids, weights, ids.len() as int), ids[i].0, k) ==> exists|q: int|
            0 <= q < ids.len() && ids[q].0 == k,
{
    lemma_complete_rows(ids, weights, ids.len() as int);
    let rows = complete_rows(ids, weights, ids.len() as int);
    assert(rows[ids[i].0].contains_key(ids[j].0));
    if stores(rows, ids[i].0, k) {
        assert(rows[ids[i].0].contains_key(k));
    }
}

/// The complete graph is undirected: when the ids are distinct, an edge of
/// some weight from `a` to `b` comes with an edge of the same weight from
/// `b` to `a`.
pub proof fn law_from_points_symmetric(ids: Seq<Id>, weights: Seq<Vec<u64>>, a: usize, ka: usize)
    requires
        distinct_ids(ids),
        weights.len() == ids.len(),
        forall|p: int| 0 <= p < ids.len() ==> #[trigger] weights[p].len() == ids.len(),
        stores(complete_rows(ids, weights, ids.len() as int), a, ka),
    ensures
        ({
            let rows = complete_rows(ids, weights, ids.len() as int);
            let e = rows[a][ka];
            &&& e.to.0 == ka
            &&& stores(rows, ka, a)
            &&& rows[ka][a].to.0 == a
            &&& rows[ka][a].weight == e.weight
        }),
{
    let n = ids.len() as int;
    let rows = complete_rows(ids, weights, n);
    lemma_complete_rows(ids, weights, n);
    let i = choose|p: int| 0 <= p < n && ids[p].0 == a;
    assert(rows[ids[i].0].contains_key(ka));
    let j = choose|q: int| 0 <= q < n && ids[q].0 == ka;
    assert(rows[ids[i].0].contains_key(ids[j].0));
    assert(rows[ids[j].0].contains_key(ids[i].0));
}

proof fn lemma_neighbor_row_keys(ids: Seq<Id>, nb: Seq<usize>, w: Seq<u64>, i: int, k: int, key: usize)
    requires
        0 <= k <= nb.len(),
    ensures
        neighbor_row(ids, nb, w, i, k).contains_key(key) <==> exists|q: int| 0 <= q < k && ids[nb[q] as int].0 == key,
        neighbor_row(ids, nb, w, i, k).contains_key(key) ==> neighbor_row(ids, nb, w, i, k)[key].from == ids[i]
            && neighbor_row(ids, nb, w, i, k)[key].to.0 == key,
    decreases k,
{
    if k > 0 {
        lemma_neighbor_row_keys(ids, nb, w, i, k - 1, key);
        if neighbor_row(ids, nb, w, i, k).contains_key(key) && ids[nb[k - 1] as int].0 != key {
            let q = choose|q: int| 0 <= q < k - 1 && ids[nb[q] as int].0 == key;
            assert(0 <= q < k);
        }
        if exists|q: int| 0 <= q < k && ids[nb[q] as int].0 == key {
            let q = choose|q: int| 0 <= q < k && ids[nb[q] as int].0 == key;
            if q < k - 1 {
                assert(neighbor_row(ids, nb, w, i, k - 1).contains_key(key));
            }
        }
    }
}

proof fn lemma_neighbor_row_weight(ids: Seq<Id>, nb: Seq<usize>, w: Seq<u64>, i: int, k: int, key: usize)
    requires
        0 <= k <= nb.len(),
    ensures
        neighbor_row(ids, nb, w, i, k).contains_key(key) ==> exists|q: int|
            #![trigger nb[q]]
            0 <= q < k && ids[nb[q] as int].0 == key && neighbor_row(ids, nb, w, i, k)[key].weight == w[q] && forall|
                r: int,
            |
                #![trigger nb[r]]
                q < r < k ==> ids[nb[r] as int].0 != key,
    decreases k,
{
    if k > 0 {
        lemma_neighbor_row_weight(ids, nb, w, i, k - 1, key);
        if neighbor_row(ids, nb, w, i, k).contains_key(key) {
            if ids[nb[k - 1] as int].0 == key {
                assert(nb[k - 1] == nb[k - 1]);
            } else {
                let q = choose|q: int|
                    #![trigger nb[q]]
                    0 <= q < k - 1 && ids[nb[q] as int].0 == key && neighbor_row(ids, nb, w, i, k - 1)[key].weight
                        == w[q] && forall|r: int| #![trigger nb[r]] q < r < k - 1 ==> ids[nb[r] as int].0 != key;
                assert(forall|r: int| #![trigger nb[r]] q < r < k ==> ids[nb[r] as int].0 != key);
            }
        }
    }
}

proof fn lemma_neighbor_rows_row(ids: Seq<Id>, weights: Seq<Vec<u64>>, i: int, upto: int)
    requires
        distinct_ids(ids),
        0 <= i < upto <= ids.len(),
    ensures
        neighbor_rows(ids, weights, upto).contains_key(ids[i].0),
        neighbor_rows(ids, weights, upto)[ids[i].0] == neighbor_row(
            ids,
            neighbor_seq(i, NEIGHBOR_CNT as int, ids.len() as int),
            weights[i]@,
            i,
            neighbor_seq(i, NEIGHBOR_CNT as int, ids.len() as int).len() as int,
        ),
    decreases upto,
{
    if i < upto - 1 {
        lemma_neighbor_rows_row(ids, weights, i, upto - 1);
        assert(ids[upto - 1].0 != ids[i].0);
    }
}

/// The neighbour graph links each vertex to its neighbours by position:
/// when the ids are distinct, the row of the vertex at position `i` holds
/// an edge to the vertex at position `j` exactly when `j` is one of the
/// neighbour positions of `i`; every edge in that row leaves that vertex
/// for the vertex under whose id it is stored, and its weight is the one
/// listed at the last place where `j` occurs among the neighbour positions.
#[verifier::spinoff_prover]
#[verifier::rlimit(50)]
pub proof fn law_neighbor_rows(ids: Seq<Id>, weights: Seq<Vec<u64>>, i: int, j: int)
    requires
        distinct_ids(ids),
        0 <= i < ids.len(),
        0 <= j < ids.len(),
        forall|p: int| 0 <= p < ids.len() ==> #[trigger] neighbors_fit(p, NEIGHBOR_CNT as int, ids.len() as int),
    ensures
        ({
            let rows = neighbor_rows(ids, weights, ids.len() as int);
            let nb = neighbor_seq(i, NEIGHBOR_CNT as int, ids.len() as int);
            &&& rows.contains_key(ids[i].0)
            &&& rows[ids[i].0].contains_key(ids[j].0) <==> nb.contains(j as usize)
            &&& rows[ids[i].0].contains_key(ids[j].0) ==> rows[ids[i].0][ids[j].0].from == ids[i]
                && rows[ids[i].0][ids[j].0].to == ids[j]
            &&& rows[ids[i].0].contains_key(ids[j].0) ==> exists|q: int|
                #![trigger nb[q]]
                0 <= q < nb.len() && nb[q] == j as usize && rows[ids[i].0][ids[j].0].weight == weights[i]@[q]
                    && forall|r: int| #![trigger nb[r]] q < r < nb.len() ==> nb[r] != j as usize
        }),
{
    let n = ids.len() as int;
    let nb = neighbor_seq(i, NEIGHBOR_CNT as int, n);
    lemma_neighbor_rows_row(ids, weights, i, n);
    lemma_neighbor_row_keys(ids, nb, weights[i]@, i, nb.len() as int, ids[j].0);
    lemma_neighbor_row_weight(ids, nb, weights[i]@, i, nb.len() as int, ids[j].0);
    assert(neighbors_fit(i, NEIGHBOR_CNT as int, n));
    let row = neighbor_row(ids, nb, weights[i]@, i, nb.len() as int);
    if row.contains_key(ids[j].0) {
        let q = choose|q: int|
            #![trigger nb[q]]
            0 <= q < nb.len() && ids[nb[q] as int].0 == ids[j].0 && row[ids[j].0].weight == weights[i]@[q] && forall|
                r: int,
            |
                #![trigger nb[r]]
                q < r < nb.len() ==> ids[nb[r] as int].0 != ids[j].0;
        assert(pair_fits(i, q / 2, n));
        assert(nb[q] < n);
        assert(nb[q] as int == j);
        assert(forall|r: int| #![trigger nb[r]] q < r < nb.len() ==> nb[r] != j as usize);
    }
    if nb.contains(j as usize) {
        let q = choose|q: int| 0 <= q < nb.len() && nb[q] == j as usize;
        assert(ids[nb[q] as int].0 == ids[j].0);
    }
    if exists|q: int| 0 <= q < nb.len() && ids[nb[q] as int].0 == ids[j].0 {
        let q = choose|q: int| 0 <= q < nb.len() && ids[nb[q] as int].0 == ids[j].0;
        assert(pair_fits(i, q / 2, n));
        assert(nb[q] < n);
        assert(nb[q] as int == j);
    }
}

impl DenseMatrixGraph {
    /// The complete graph over the vertices `ids`: every vertex gets a row
    /// with an edge to every vertex, the edge between positions `i` and `j`
    /// weighing `weights[i][j]`, stored in both directions.
    #[verifier::spinoff_prover]
    #[verifier::rlimit(50)]
    pub fn from_points(ids: &Vec<Id>, weights: &Vec<Vec<u64>>, directed: bool) -> (g: Self)
        requires
            weights.len() == ids.len(),
            forall|i: int| 0 <= i < ids.len() ==> #[trigger] weights[i].len() == ids.len(),
        ensures
            g.rows() == complete_rows(ids@, weights@, ids.len() as int),
            g.vertex_count() == ids.len(),
            g.edge_count() == g.rows().dom().len(),
            g.is_directed() == directed,
    {
        let mut matrix: BTreeMap<usize, BTreeMap<usize, Edge>> = BTreeMap::new();
        let n = ids.len();
        let mut i: usize = 0;
        while i < n
            invariant
                0 <= i <= n,
                n == ids.len(),
                weights.len() == n,
                forall|i: int| 0 <= i < ids.len() ==> #[trigger] weights[i].len() == ids.len(),
                rows_of(matrix) == complete_rows(ids@, weights@, i as int),
            decreases n - i,
        {
            let v = ids[i];
            matrix.insert(v.0, BTreeMap::new());
            let ghost start = rows_of(matrix);
            assert(start =~= complete_rows(ids@, weights@, i as int).insert(v.0, Map::empty()));
            let mut j: usize = 0;
            while j < n
                invariant
                    0 <= j <= n,
                    i < n,
                    n == ids.len(),
                    weights.len() == n,
                    weights[i as int].len() == n,
                    v == ids[i as int],
                    rows_of(matrix) == complete_inner(start, ids@, weights@, i as int, j as int),
                decreases n - j,
            {
                let w = ids[j];
                let weight = weights[i][j];
                matrix_put(&mut matrix, v.0, w.0, Edge { from: v, to: w, weight });
                matrix_put(&mut matrix, w.0, v.0, Edge { from: w, to: v, weight });
                j += 1;
            }
            i += 1;
        }
        let e_cnt = matrix.len();
        assert(rows_of(matrix).dom() =~= matrix@.dom());
        DenseMatrixGraph { v_cnt: ids.len(), e_cnt, directed, matrix }
    }

    /// The graph that links each vertex to its neighbours by position: row
    /// `ids[i]` holds the edges to the vertices at the positions
    /// `get_neighbors(i, NEIGHBOR_CNT, ids.len())`, the `k`-th of them
    /// weighing `weights[i][k]`.
    #[verifier::spinoff_prover]
    #[verifier::rlimit(50)]
    pub fn from_points_with_neighbors(ids: &Vec<Id>, weights: &Vec<Vec<u64>>, directed: bool) -> (g: Self)
        requires
            weights.len() == ids.len(),
            forall|i: int| 0 <= i < ids.len() ==> #[trigger] neighbors_fit(i, NEIGHBOR_CNT as int, ids.len() as int),
            forall|i: int| 0 <= i < ids.len() ==> #[trigger] weights[i].len() == 2 * (NEIGHBOR_CNT / 2 + 1),
        ensures
            g.rows() == neighbor_rows(ids@, weights@, ids.len() as int),
            g.vertex_count() == ids.len(),
            g.edge_count() == g.rows().dom().len(),
            g.is_directed() == directed,
    {
        let mut matrix: BTreeMap<usize, BTreeMap<usize, Edge>> = BTreeMap::new();
        let n = ids.len();
        let mut curr_idx: usize = 0;
        while curr_idx < n
            invariant
                0 <= curr_idx <= n,
                n == ids.len(),
                weights.len() == n,
                forall|i: int| 0 <= i < ids.len() ==> #[trigger] neighbors_fit(i, NEIGHBOR_CNT as int, ids.len() as int),
                forall|i: int| 0 <= i < ids.len() ==> #[trigger] weights[i].len() == 2 * (NEIGHBOR_CNT / 2 + 1),
                rows_of(matrix) == neighbor_rows(ids@, weights@, curr_idx as int),
            decreases n - curr_idx,
        {
            let v = ids[curr_idx];
            matrix.insert(v.0, BTreeMap::new());
            let ghost base = neighbor_rows(ids@, weights@, curr_idx as int);
            assert(neighbors_fit(curr_idx as int, NEIGHBOR_CNT as int, n as int));
            let neighbors = get_neighbors(curr_idx, NEIGHBOR_CNT, n);
            let ghost nb = neighbors@;
            assert forall|p: int| 0 <= p < nb.len() implies #[trigger] nb[p] < n by {
                assert(pair_fits(curr_idx as int, p / 2, n as int));
            }
            assert(weights[curr_idx as int].len() == nb.len());
            let mut k: usize = 0;
            while k < neighbors.len()
                invariant
                    0 <= k <= neighbors.len(),
                    curr_idx < n,
                    n == ids.len(),
                    weights.len() == n,
                    weights[curr_idx as int].len() == nb.len(),
                    nb == neighbors@,
                    nb == neighbor_seq(curr_idx as int, NEIGHBOR_CNT as int, n as int),
                    forall|p: int| 0 <= p < nb.len() ==> #[trigger] nb[p] < n,
                    v == ids[curr_idx as int],
                    rows_of(matrix) == base.insert(v.0, neighbor_row(ids@, nb, weights[curr_idx as int]@, curr_idx as int, k as int)),
                decreases neighbors.len() - k,
            {
                let w = ids[neighbors[k]];
                let length = weights[curr_idx][k];
                let ghost row_k = neighbor_row(ids@, nb, weights[curr_idx as int]@, curr_idx as int, k as int);
                let ghost e = Edge { from: v, to: w, weight: length };
                assert(neighbor_row(ids@, nb, weights[curr_idx as int]@, curr_idx as int, k + 1) == row_k.insert(w.0, e));
                assert(base.insert(v.0, row_k).insert(v.0, row_k.insert(w.0, e)) =~= base.insert(v.0, row_k.insert(w.0, e)));
                matrix_put(&mut matrix, v.0, w.0, Edge { from: v, to: w, weight: length });
                if !directed {
                    matrix_put(&mut matrix, v.0, w.0, Edge { from: v, to: w, weight: length });
                    assert(row_k.insert(w.0, e).insert(w.0, e) =~= row_k.insert(w.0, e));
                }
                assert(rows_of(matrix) =~= base.insert(
                    v.0,
                    neighbor_row(ids@, nb, weights[curr_idx as int]@, curr_idx as int, k + 1),
                ));
                k += 1;
            }
            assert(rows_of(matrix) =~= neighbor_rows(ids@, weights@, curr_idx + 1));
            curr_idx += 1;
        }
        let e_cnt = matrix.len();
        assert(rows_of(matrix).dom() =~= matrix@.dom());
        DenseMatrixGraph { v_cnt: ids.len(), e_cnt, directed, matrix }
    }
}

/// A graph has an edge from `v` to `w` exactly when its rows store one,
/// that is, exactly when `edge(v, w)` returns one.
pub proof fn law_has_edge(g: DenseMatrixGraph, v: usize, w: usize)
    ensures
        g.has_edge(v, w) == stores(g.rows(), v, w),
        g.has_edge(v, w) == (stored_edge(g.rows(), v, w) is Some),
{
}

impl GraphTrait for DenseMatrixGraph {
    closed spec fn edge_count(&self) -> int {
        self.e_cnt as int
    }

    open spec fn has_edge(&self, v: usize, w: usize) -> bool {
        stores(self.rows(), v, w)
    }

    fn v(&self) -> (r: usize)
        ensures
            r == self.vertex_count(),
    {
        self.v_cnt
    }

    fn e(&self) -> (r: usize) {
        self.e_cnt
    }

    fn directed(&self) -> (r: bool)
        ensures
            r == self.is_directed(),
    {
        self.directed
    }

    fn insert(&mut self, edge: &Edge)
        ensures
            final(self).rows() == rows_after_insert(old(self).rows(), *edge),
            final(self).edge_count() == old(self).edge_count() + if old(self).has_edge(edge.from.0, edge.to.0) {
                0int
            } else {
                1int
            },
            final(self).vertex_count() == old(self).vertex_count(),
            final(self).is_directed() == old(self).is_directed(),
            old(self).rows().contains_key(edge.from.0) ==> stored_edge(final(self).rows(), edge.from.0, edge.to.0)
                == Some(*edge),
            old(self).rows().contains_key(edge.to.0) ==> stored_edge(final(self).rows(), edge.to.0, edge.to.0)
                == Some(*edge),
            forall|a: usize, b: usize|
                !(a == edge.from.0 && b == edge.to.0) && !(a == edge.to.0 && b == edge.to.0) ==> #[trigger] stored_edge(
                    final(self).rows(),
                    a,
                    b,
                ) == stored_edge(old(self).rows(), a, b),
    {
        proof {
            assert forall|a: usize, b: usize|
                !(a == edge.from.0 && b == edge.to.0) && !(a == edge.to.0 && b == edge.to.0) implies #[trigger] stored_edge(
                    rows_after_insert(self.rows(), *edge),
                    a,
                    b,
                ) == stored_edge(self.rows(), a, b) by {
                law_insert_effect(self.rows(), *edge, a, b);
            }
            law_insert_effect(self.rows(), *edge, 0, 0);
        }
        let v = edge.from.0;
        let w = edge.to.0;
        let had = match self.matrix.get(&v) {
            Some(v_edges) => v_edges.contains_key(&w),
            None => false,
        };
        if !had {
            self.e_cnt += 1;
        }
        let ghost r0 = self.rows();
        match self.matrix.remove(&v) {
            Some(mut v_edges) => {
                v_edges.insert(w, *edge);
                self.matrix.insert(v, v_edges);
            },
            None => {
                self.matrix.insert(v, BTreeMap::new());
            },
        }
        let ghost r1 = self.rows();
        assert(r1 =~= put_or_open_row(r0, v, w, *edge));
        match self.matrix.remove(&w) {
            Some(mut w_edges) => {
                w_edges.insert(w, *edge);
                self.matrix.insert(w, w_edges);
            },
            None => {
                self.matrix.insert(w, BTreeMap::new());
            },
        }
        assert(self.rows() =~= put_or_open_row(r1, w, w, *edge));
    }

    fn remove(&mut self, edge: &Edge)
        ensures
            final(self).rows() == rows_after_remove(old(self).rows(), *edge, old(self).is_directed()),
            final(self).edge_count() == old(self).edge_count() - if old(self).has_edge(edge.from.0, edge.to.0) {
                1int
            } else {
                0int
            },
            final(self).vertex_count() == old(self).vertex_count(),
            final(self).is_directed() == old(self).is_directed(),
            forall|a: usize, b: usize|
                #[trigger] stored_edge(final(self).rows(), a, b) == if (a == edge.from.0 && b == edge.to.0) || (
                !old(self).is_directed() && a == edge.to.0 && b == edge.from.0) {
                    None
                } else {
                    stored_edge(old(self).rows(), a, b)
                },
    {
        proof {
            assert forall|a: usize, b: usize|
                #[trigger] stored_edge(rows_after_remove(self.rows(), *edge, self.is_directed()), a, b) == if (a
                    == edge.from.0 && b == edge.to.0) || (!self.is_directed() && a == edge.to.0 && b == edge.from.0) {
                    None
                } else {
                    stored_edge(self.rows(), a, b)
                } by {
                law_remove_effect(self.rows(), *edge, self.is_directed(), a, b);
            }
        }
        let v = edge.from.0;
        let w = edge.to.0;
        let had = match self.matrix.get(&v) {
            Some(v_edges) => v_edges.contains_key(&w),
            None => false,
        };
        if had {
            self.e_cnt -= 1;
        }
        let ghost r0 = self.rows();
        if let Some(mut v_edges) = self.matrix.remove(&v) {
            v_edges.remove(&w);
            self.matrix.insert(v, v_edges);
        }
        let ghost r1 = self.rows();
        assert(r1 =~= drop_from_row(r0, v, w));
        if !self.directed {
            if let Some(mut w_edges) = self.matrix.remove(&w) {
                w_edges.remove(&v);
                self.matrix.insert(w, w_edges);
            }
            assert(self.rows() =~= drop_from_row(r1, w, v));
        }
    }

    fn edge(&self, v_id: Id, w_id: Id) -> (r: Option<Edge>)
        ensures
            r == stored_edge(self.rows(), v_id.0, w_id.0),
    {
        match self.matrix.get(&v_id.0) {
            Some(v_edges) => match v_edges.get(&w_id.0) {
                Some(e) => Some(*e),
                None => None,
            },
            None => None,
        }
    }

    fn edges(&self, v_id: Id) -> (r: Option<BTreeMap<usize, Edge>>)
        ensures
            match r {
                Some(m) => self.rows().contains_key(v_id.0) && m@ == self.rows()[v_id.0],
                None => !self.rows().contains_key(v_id.0),
            },
    {
        match self.matrix.get(&v_id.0) {
            Some(v_edges) => Some(v_edges.clone()),
            None => None,
        }
    }
}

} // verus!
