//! Prim's minimum spanning tree over a [`DenseMatrixGraph`].
//!
//! The tree grows from vertex 0. At every step the vertex that joins it is
//! the one outside the tree with the least key (the least weight of an edge
//! reaching it from the tree), the lowest index among equal keys; it joins
//! through the earliest tree vertex that offers that key. A vertex that no
//! edge lighter than `u64::MAX` reaches keeps the key `u64::MAX` and joins
//! without an edge.

use vstd::prelude::*;
use crate::graph::{DenseMatrixGraph, Edge, GraphTrait, Rows};
use crate::id::Id;
use vstd::std_specs::iter::IteratorSpec;

verus! {

/// Builds a spanning tree of a graph.
pub trait PrimMST<T: GraphTrait>: Sized {
    fn calc_mst(graph: T) -> Self;
}

/// The key of vertex `x` before any tree vertex offers it an edge: 0 for
/// the root, `u64::MAX` for every other vertex.
pub open spec fn base_key(x: usize) -> u64 {
    if x == 0 {
        0
    } else {
        u64::MAX
    }
}

/// Row `a` of `rows` holds an edge to `x` of weight `w`.
pub open spec fn offers(rows: Rows, a: usize, x: usize, w: u64) -> bool {
    &&& rows.contains_key(a)
    &&& exists|k: usize| #[trigger] rows[a].contains_key(k) && rows[a][k].to.0 == x && rows[a][k].weight == w
}

/// `kv` is the key of `x` once the vertices of `tree` are in the tree: the
/// least of its base key and the weights of the edges from tree vertices to `x`.
pub open spec fn is_key(rows: Rows, tree: Seq<usize>, x: usize, kv: u64) -> bool {
    &&& kv <= base_key(x)
    &&& forall|j: int, w: u64| 0 <= j < tree.len() && #[trigger] offers(rows, tree[j], x, w) ==> kv <= w
    &&& kv == base_key(x) || exists|j: int| 0 <= j < tree.len() && #[trigger] offers(rows, tree[j], x, kv)
}

/// The key of `x` once the vertices of `tree` are in the tree.
pub open spec fn key_of(rows: Rows, tree: Seq<usize>, x: usize) -> u64 {
    choose|kv: u64| is_key(rows, tree, x, kv)
}

/// `tree[j]` is the earliest tree vertex with an edge to `x` of weight `kv`.
pub open spec fn is_first_offer(rows: Rows, tree: Seq<usize>, x: usize, kv: u64, j: int) -> bool {
    &&& 0 <= j < tree.len()
    &&& offers(rows, tree[j], x, kv)
    &&& forall|i: int| 0 <= i < j ==> !#[trigger] offers(rows, tree[i], x, kv)
}

/// The position in `tree` of the earliest vertex with an edge to `x` of
/// weight `kv`.
pub open spec fn first_offer(rows: Rows, tree: Seq<usize>, x: usize, kv: u64) -> int {
    choose|j: int| is_first_offer(rows, tree, x, kv, j)
}

/// The tree vertex through which `x`, of key `kv`, would join: the earliest
/// one offering `kv`, when `kv` is below the base key.
pub open spec fn parent_of(rows: Rows, tree: Seq<usize>, x: usize, kv: u64) -> Option<Id> {
    if kv < base_key(x) {
        Some(Id(tree[first_offer(rows, tree, x, kv)]))
    } else {
        None
    }
}

/// The edge through which `x` joins once the vertices of `tree` are in the
/// tree, if any.
pub open spec fn joining_edge(rows: Rows, tree: Seq<usize>, x: usize) -> Option<Edge> {
    let kv = key_of(rows, tree, x);
    match parent_of(rows, tree, x, kv) {
        Some(p) => Some(Edge { from: p, to: Id(x), weight: kv }),
        None => None,
    }
}

/// `u` is the vertex that joins next after the vertices of `tree`: outside
/// the tree, of least key, and of least index among equal keys.
pub open spec fn is_next(rows: Rows, n: usize, tree: Seq<usize>, u: usize) -> bool {
    &&& u < n
    &&& !tree.contains(u)
    &&& forall|x: usize|
        #![trigger tree.contains(x)]
        x < n && !tree.contains(x) ==> key_of(rows, tree, u) <= key_of(rows, tree, x) && (key_of(rows, tree, u)
            == key_of(rows, tree, x) ==> u <= x)
}

/// `order` is the order in which Prim's algorithm adds the `n` vertices.
pub open spec fn prim_order(rows: Rows, n: usize, order: Seq<usize>) -> bool {
    &&& order.len() == n
    &&& forall|k: int| 0 <= k < n ==> #[trigger] is_next(rows, n, order.take(k), order[k])
}

/// `tree[x]` is the edge through which vertex `x` joined, for the joining
/// order `order`.
pub open spec fn prim_tree(rows: Rows, n: usize, order: Seq<usize>, tree: Seq<Option<Edge>>) -> bool {
    &&& tree.len() == n
    &&& forall|k: int| 0 <= k < n ==> tree[#[trigger] order[k] as int] == joining_edge(rows, order.take(k), order[k])
}

/// Every edge stored in one of the first `n` rows leads to one of the
/// first `n` vertices.
pub open spec fn targets_in_range(rows: Rows, n: usize) -> bool {
    forall|u: usize, k: usize|
        u < n && rows.contains_key(u) && #[trigger] rows[u].contains_key(k) ==> rows[u][k].to.0 < n
}

/// How many entries the row of `u` holds; a vertex without a row holds none.
pub open spec fn row_len(rows: Rows, u: usize) -> nat {
    if rows.contains_key(u) {
        rows[u].len()
    } else {
        0
    }
}

/// The entries of the rows of the vertices of `order`, added up.
pub open spec fn rows_scanned(rows: Rows, order: Seq<usize>) -> nat
    decreases order.len(),
{
    if order.len() == 0 {
        0
    } else {
        rows_scanned(rows, order.drop_last()) + row_len(rows, order.last())
    }
}

/// The steps Prim's search takes on `n` vertices joining in `order`: each
/// of the `n` rounds looks at all `n` vertices, then at every entry of the
/// row of the vertex that joins.
pub open spec fn op_count(rows: Rows, n: usize, order: Seq<usize>) -> nat {
    (n * n) as nat + rows_scanned(rows, order)
}

/// The entries of the rows of the vertices `0 .. n`, added up.
pub open spec fn rows_total(rows: Rows, n: nat) -> nat
    decreases n,
{
    if n == 0 {
        0
    } else {
        rows_total(rows, (n - 1) as nat) + row_len(rows, (n - 1) as usize)
    }
}

/// The entries of the rows of those vertices below `m` that `s` holds.
spec fn rows_held(rows: Rows, s: Seq<usize>, m: nat) -> nat
    decreases m,
{
    if m == 0 {
        0
    } else {
        rows_held(rows, s, (m - 1) as nat) + if s.contains((m - 1) as usize) {
            row_len(rows, (m - 1) as usize)
        } else {
            0
        }
    }
}

proof fn lemma_rows_held_empty(rows: Rows, m: nat)
    ensures
        rows_held(rows, Seq::empty(), m) == 0,
    decreases m,
{
    if m > 0 {
        lemma_rows_held_empty(rows, (m - 1) as nat);
    }
}

proof fn lemma_rows_held_push(rows: Rows, t: Seq<usize>, x: usize, m: nat)
    requires
        !t.contains(x),
        m <= usize::MAX + 1,
    ensures
        rows_held(rows, t.push(x), m) == rows_held(rows, t, m) + if x < m {
            row_len(rows, x)
        } else {
            0
        },
    decreases m,
{
    if m > 0 {
        lemma_rows_held_push(rows, t, x, (m - 1) as nat);
        let y = (m - 1) as usize;
        assert(t.push(x).contains(y) == (t.contains(y) || y == x)) by {
            if t.push(x).contains(y) && y != x {
                let k = choose|k: int| 0 <= k < t.push(x).len() && t.push(x)[k] == y;
                assert(t[k] == y);
            }
            if t.contains(y) {
                let k = choose|k: int| 0 <= k < t.len() && t[k] == y;
                assert(t.push(x)[k] == y);
            }
            if y == x {
                assert(t.push(x)[t.len() as int] == x);
            }
        }
    }
}

proof fn lemma_rows_scanned_held(rows: Rows, s: Seq<usize>, m: nat)
    requires
        s.no_duplicates(),
        m <= usize::MAX + 1,
        forall|k: int| 0 <= k < s.len() ==> #[trigger] s[k] < m,
    ensures
        rows_scanned(rows, s) == rows_held(rows, s, m),
    decreases s.len(),
{
    if s.len() == 0 {
        assert(s =~= Seq::<usize>::empty());
        lemma_rows_held_empty(rows, m);
    } else {
        let t = s.drop_last();
        let x = s.last();
        assert(t.push(x) =~= s);
        assert(!t.contains(x)) by {
            if t.contains(x) {
                let k = choose|k: int| 0 <= k < t.len() && t[k] == x;
                assert(s[k] == s[s.len() - 1]);
            }
        }
        lemma_rows_scanned_held(rows, t, m);
        lemma_rows_held_push(rows, t, x, m);
    }
}

proof fn lemma_rows_held_total(rows: Rows, s: Seq<usize>, m: nat)
    requires
        m <= usize::MAX + 1,
        forall|x: usize| x < m ==> s.contains(x),
    ensures
        rows_held(rows, s, m) == rows_total(rows, m),
    decreases m,
{
    if m > 0 {
        lemma_rows_held_total(rows, s, (m - 1) as nat);
        assert(s.contains((m - 1) as usize));
    }
}

/// The number of steps the search takes does not depend on the order in
/// which the vertices join: it is `n * n` plus the entries of all rows of
/// the vertices `0 .. n`.
pub proof fn law_op_count_total(rows: Rows, n: usize, order: Seq<usize>)
    requires
        prim_order(rows, n, order),
        n >= 1,
    ensures
        op_count(rows, n, order) == n * n + rows_total(rows, n as nat),
{
    law_prim_order_permutation(rows, n, order);
    lemma_rows_scanned_held(rows, order, n as nat);
    lemma_rows_held_total(rows, order, n as nat);
}

/// A key is unique.
proof fn lemma_key_unique(rows: Rows, tree: Seq<usize>, x: usize, k1: u64, k2: u64)
    requires
        is_key(rows, tree, x, k1),
        is_key(rows, tree, x, k2),
    ensures
        k1 == k2,
{
    if k1 != base_key(x) {
        let j = choose|j: int| 0 <= j < tree.len() && #[trigger] offers(rows, tree[j], x, k1);
        assert(k2 <= k1);
    }
    if k2 != base_key(x) {
        let j = choose|j: int| 0 <= j < tree.len() && #[trigger] offers(rows, tree[j], x, k2);
        assert(k1 <= k2);
    }
}

/// A value that is a key is the key.
proof fn lemma_key_of(rows: Rows, tree: Seq<usize>, x: usize, kv: u64)
    requires
        is_key(rows, tree, x, kv),
    ensures
        key_of(rows, tree, x) == kv,
{
    lemma_key_unique(rows, tree, x, kv, key_of(rows, tree, x));
}

/// The earliest offering position is unique.
proof fn lemma_first_offer(rows: Rows, tree: Seq<usize>, x: usize, kv: u64, j: int)
    requires
        is_first_offer(rows, tree, x, kv, j),
    ensures
        first_offer(rows, tree, x, kv) == j,
{
    let c = first_offer(rows, tree, x, kv);
    assert(is_first_offer(rows, tree, x, kv, c));
    if c < j {
        assert(!offers(rows, tree[c], x, kv));
    }
    if j < c {
        assert(!offers(rows, tree[j], x, kv));
    }
}

/// A sequence of distinct vertices below `n` that is shorter than `n`
/// misses one of them.
proof fn lemma_some_vertex_left(order: Seq<usize>, n: usize)
    requires
        order.no_duplicates(),
        order.len() < n,
    ensures
        exists|x: usize| x < n && !order.contains(x),
{
    let s = order.map_values(|x: usize| x as int);
    assert forall|i: int, j: int| 0 <= i < s.len() && 0 <= j < s.len() && i != j implies s[i] != s[j] by {
        assert(order[i] != order[j]);
    }
    assert(s.no_duplicates());
    s.unique_seq_to_set();
    if forall|x: usize| x < n ==> order.contains(x) {
        assert forall|i: int| vstd::set_lib::set_int_range(0, n as int).contains(i) implies s.to_set().contains(i) by {
            let x = i as usize;
            assert(order.contains(x));
            let k = choose|k: int| 0 <= k < order.len() && order[k] == x;
            assert(s[k] == i);
        }
        vstd::set_lib::lemma_int_range(0, n as int);
        vstd::set_lib::lemma_len_subset(vstd::set_lib::set_int_range(0, n as int), s.to_set());
    }
}

/// An offer at `j` means some earliest offer exists.
proof fn lemma_first_offer_exists(rows: Rows, tree: Seq<usize>, x: usize, kv: u64, j: int)
    requires
        0 <= j < tree.len(),
        offers(rows, tree[j], x, kv),
    ensures
        is_first_offer(rows, tree, x, kv, first_offer(rows, tree, x, kv)),
    decreases j,
{
    if exists|i: int| 0 <= i < j && #[trigger] offers(rows, tree[i], x, kv) {
        let i = choose|i: int| 0 <= i < j && #[trigger] offers(rows, tree[i], x, kv);
        lemma_first_offer_exists(rows, tree, x, kv, i);
    } else {
        assert(is_first_offer(rows, tree, x, kv, j));
    }
}

/// What relaxing the edges of the row of `u` did to the keys and parents of
/// the vertices outside `tree` (which ends with `u`): each key fell to the
/// least weight that `u` offers it, if that is lower, and each vertex whose
/// key fell now hangs from `u`.
pub open spec fn relaxed(
    rows: Rows,
    v: usize,
    tree: Seq<usize>,
    u: usize,
    old_min: Seq<u64>,
    new_min: Seq<u64>,
    old_parent: Seq<Option<Id>>,
    new_parent: Seq<Option<Id>>,
) -> bool {
    &&& new_min.len() == v
    &&& new_parent.len() == v
    &&& forall|x: usize|
        #![trigger new_min[x as int]]
        x < v && !tree.contains(x) ==> {
            &&& new_min[x as int] <= old_min[x as int]
            &&& forall|w: u64| #[trigger] offers(rows, u, x, w) ==> new_min[x as int] <= w
            &&& new_min[x as int] != old_min[x as int] ==> offers(rows, u, x, new_min[x as int])
            &&& new_parent[x as int] == if new_min[x as int] == old_min[x as int] {
                old_parent[x as int]
            } else {
                Some(Id(u))
            }
        }
}

/// Relaxing the row of `u` turns the keys and parents for `order` into
/// those for `order.push(u)`.
#[verifier::spinoff_prover]
#[verifier::rlimit(50)]
proof fn lemma_relax_step(
    rows: Rows,
    v: usize,
    order: Seq<usize>,
    u: usize,
    old_min: Seq<u64>,
    new_min: Seq<u64>,
    old_parent: Seq<Option<Id>>,
    new_parent: Seq<Option<Id>>,
)
    requires
        old_min.len() == v,
        old_parent.len() == v,
        forall|x: usize| x < v && !order.contains(x) ==> is_key(rows, order, x, #[trigger] old_min[x as int]),
        forall|x: usize|
            x < v && !order.contains(x) ==> #[trigger] old_parent[x as int] == parent_of(rows, order, x, old_min[x as int]),
        relaxed(rows, v, order.push(u), u, old_min, new_min, old_parent, new_parent),
    ensures
        forall|x: usize|
            x < v && !order.push(u).contains(x) ==> is_key(rows, order.push(u), x, #[trigger] new_min[x as int]),
        forall|x: usize|
            x < v && !order.push(u).contains(x) ==> #[trigger] new_parent[x as int] == parent_of(
                rows,
                order.push(u),
                x,
                new_min[x as int],
            ),
{
    let tree = order.push(u);
    assert forall|x: usize| x < v && !tree.contains(x) implies is_key(rows, tree, x, #[trigger] new_min[x as int])
        && new_parent[x as int] == parent_of(rows, tree, x, new_min[x as int]) by {
        assert(!order.contains(x)) by {
            if order.contains(x) {
                let k = choose|k: int| 0 <= k < order.len() && order[k] == x;
                assert(tree[k] == x);
            }
        }
        let kv = new_min[x as int];
        let old = old_min[x as int];
        assert(is_key(rows, order, x, old));
        assert forall|j: int, w: u64| 0 <= j < tree.len() && #[trigger] offers(rows, tree[j], x, w) implies kv <= w by {
            if j < order.len() {
                assert(tree[j] == order[j]);
                assert(offers(rows, order[j], x, w));
            }
        }
        if kv == old {
            if old != base_key(x) {
                let j = choose|j: int| 0 <= j < order.len() && #[trigger] offers(rows, order[j], x, old);
                assert(tree[j] == order[j]);
                assert(offers(rows, tree[j], x, kv));
                lemma_first_offer_exists(rows, order, x, old, j);
                let jo = first_offer(rows, order, x, old);
                assert forall|i: int| 0 <= i < jo implies !#[trigger] offers(rows, tree[i], x, kv) by {
                    assert(tree[i] == order[i]);
                    assert(!offers(rows, order[i], x, old));
                }
                assert(tree[jo] == order[jo]);
                assert(is_first_offer(rows, tree, x, kv, jo));
                lemma_first_offer(rows, tree, x, kv, jo);
            }
            assert(is_key(rows, tree, x, kv));
        } else {
            let j = order.len() as int;
            assert(tree[j] == u);
            assert(offers(rows, tree[j], x, kv));
            assert forall|i: int| 0 <= i < j implies !#[trigger] offers(rows, tree[i], x, kv) by {
                assert(tree[i] == order[i]);
                if offers(rows, order[i], x, kv) {
                    assert(old <= kv);
                }
            }
            assert(is_first_offer(rows, tree, x, kv, j));
            lemma_first_offer(rows, tree, x, kv, j);
            assert(is_key(rows, tree, x, kv));
        }
    }
}


/// Prim's order is determined by the graph: two orders that both satisfy
/// the greedy rule are the same order.
pub proof fn law_prim_order_unique(rows: Rows, n: usize, o1: Seq<usize>, o2: Seq<usize>)
    requires
        prim_order(rows, n, o1),
        prim_order(rows, n, o2),
    ensures
        o1 == o2,
{
    assert forall|k: int| 0 <= k <= n implies #[trigger] o1.take(k) == o2.take(k) by {
        lemma_prefixes_agree(rows, n, o1, o2, k);
    }
    assert(o1 =~= o1.take(n as int));
    assert(o2 =~= o2.take(n as int));
}

proof fn lemma_prefixes_agree(rows: Rows, n: usize, o1: Seq<usize>, o2: Seq<usize>, k: int)
    requires
        prim_order(rows, n, o1),
        prim_order(rows, n, o2),
        0 <= k <= n,
    ensures
        o1.take(k) == o2.take(k),
    decreases k,
{
    if k > 0 {
        lemma_prefixes_agree(rows, n, o1, o2, k - 1);
        let t = o1.take(k - 1);
        assert(is_next(rows, n, o1.take(k - 1), o1[k - 1]));
        assert(is_next(rows, n, o2.take(k - 1), o2[k - 1]));
        let (a, b) = (o1[k - 1], o2[k - 1]);
        assert(!t.contains(a) && !t.contains(b));
        assert(key_of(rows, t, a) <= key_of(rows, t, b));
        assert(key_of(rows, t, b) <= key_of(rows, t, a));
        assert(a == b);
        assert(o1.take(k) =~= t.push(a));
        assert(o2.take(k) =~= o2.take(k - 1).push(b));
    }
}

/// Prim's order adds every vertex `0 .. n` exactly once, starting with the
/// root 0.
#[verifier::spinoff_prover]
#[verifier::rlimit(50)]
pub proof fn law_prim_order_permutation(rows: Rows, n: usize, order: Seq<usize>)
    requires
        prim_order(rows, n, order),
        n >= 1,
    ensures
        order.no_duplicates(),
        forall|k: int| 0 <= k < n ==> #[trigger] order[k] < n,
        forall|x: usize| x < n ==> order.contains(x),
        order[0] == 0,
{
    assert forall|i: int, j: int| 0 <= i < j < n implies order[i] != order[j] by {
        assert(is_next(rows, n, order.take(j), order[j]));
        assert(order.take(j)[i] == order[i]);
    }
    assert forall|k: int| 0 <= k < n implies #[trigger] order[k] < n by {
        assert(is_next(rows, n, order.take(k), order[k]));
    }
    assert forall|x: usize| x < n implies order.contains(x) by {
        if !order.contains(x) {
            let m = order.map_values(|y: usize| y as int);
            assert(m.no_duplicates()) by {
                assert forall|i: int, j: int| 0 <= i < m.len() && 0 <= j < m.len() && i != j implies m[i] != m[j] by {
                    if i < j {
                        assert(order[i] != order[j]);
                    } else {
                        assert(order[j] != order[i]);
                    }
                }
            }
            m.unique_seq_to_set();
            assert(m.to_set().subset_of(vstd::set_lib::set_int_range(0, n as int).remove(x as int))) by {
                assert forall|i: int| #[trigger] m.to_set().contains(i) implies vstd::set_lib::set_int_range(0, n as int).remove(x as int).contains(i) by {
                    let k = choose|k: int| 0 <= k < m.len() && m[k] == i;
                    assert(order[k] < n);
                    if i == x as int {
                        assert(order.contains(x));
                    }
                }
            }
            vstd::set_lib::lemma_int_range(0, n as int);
            vstd::set_lib::lemma_len_subset(m.to_set(), vstd::set_lib::set_int_range(0, n as int).remove(x as int));
        }
    }
    let t = order.take(0);
    assert(is_next(rows, n, t, order[0]));
    assert(is_key(rows, t, 0, 0));
    lemma_key_of(rows, t, 0, 0);
    if order[0] != 0 {
        assert(!t.contains(0usize));
        assert(key_of(rows, t, order[0]) <= key_of(rows, t, 0));
        assert(is_key(rows, t, order[0], base_key(order[0])));
        lemma_key_of(rows, t, order[0], base_key(order[0]));
    }
}

/// The cut property of Prim's tree: the vertex that joins at step `k`
/// joins at a key no greater than the weight of any edge from a vertex
/// already in the tree to a vertex still outside it.
pub proof fn law_prim_light_edge(rows: Rows, n: usize, order: Seq<usize>, k: int, j: int, x: usize, w: u64)
    requires
        prim_order(rows, n, order),
        0 <= j < k < n,
        x < n,
        !order.take(k).contains(x),
        offers(rows, order[j], x, w),
    ensures
        key_of(rows, order.take(k), order[k]) <= w,
{
    let t = order.take(k);
    assert(is_next(rows, n, t, order[k]));
    assert(t[j] == order[j]);
    let kx = key_of(rows, t, x);
    lemma_key_exists(rows, t, x);
    assert(offers(rows, t[j], x, w));
}

/// Every vertex has a key.
#[verifier::spinoff_prover]
#[verifier::rlimit(50)]
proof fn lemma_key_exists(rows: Rows, tree: Seq<usize>, x: usize)
    ensures
        is_key(rows, tree, x, key_of(rows, tree, x)),
    decreases tree.len(),
{
    if tree.len() == 0 {
        assert(is_key(rows, tree, x, base_key(x)));
    } else {
        let t = tree.drop_last();
        let u = tree.last();
        lemma_key_exists(rows, t, x);
        let k0 = key_of(rows, t, x);
        let kv = if exists|w: u64| #[trigger] offers(rows, u, x, w) && w < k0 {
            lemma_least_offer(rows, u, x, k0)
        } else {
            k0
        };
        assert forall|j: int, w: u64| 0 <= j < tree.len() && #[trigger] offers(rows, tree[j], x, w) implies kv <= w by {
            if j < t.len() {
                assert(tree[j] == t[j]);
                assert(offers(rows, t[j], x, w));
            }
        }
        if kv != base_key(x) {
            if kv == k0 {
                let j = choose|j: int| 0 <= j < t.len() && #[trigger] offers(rows, t[j], x, k0);
                assert(tree[j] == t[j]);
                assert(offers(rows, tree[j], x, kv));
            } else {
                assert(tree[tree.len() - 1] == u);
                assert(offers(rows, tree[tree.len() - 1], x, kv));
            }
        }
        assert(is_key(rows, tree, x, kv));
    }
}

/// Among the weights below `bound` of the edges that row `u` holds to `x`,
/// there is a least one.
proof fn lemma_least_offer(rows: Rows, u: usize, x: usize, bound: u64) -> (w: u64)
    requires
        exists|w: u64| #[trigger] offers(rows, u, x, w) && w < bound,
    ensures
        offers(rows, u, x, w),
        w < bound,
        forall|w2: u64| #[trigger] offers(rows, u, x, w2) ==> w <= w2,
    decreases bound,
{
    let w0 = choose|w: u64| #[trigger] offers(rows, u, x, w) && w < bound;
    if exists|w: u64| #[trigger] offers(rows, u, x, w) && w < w0 {
        lemma_least_offer(rows, u, x, w0)
    } else {
        w0
    }
}

/// Each edge of Prim's tree leads from a vertex that joined earlier to the
/// vertex that joins, and is an edge of the graph of the recorded weight;
/// the root joins without an edge.
pub proof fn law_prim_tree_edges(rows: Rows, n: usize, order: Seq<usize>, tree: Seq<Option<Edge>>, k: int)
    requires
        prim_order(rows, n, order),
        prim_tree(rows, n, order, tree),
        0 <= k < n,
    ensures
        k == 0 ==> tree[order[k] as int] is None,
        tree[order[k] as int] matches Some(e) ==> {
            &&& e.to == Id(order[k])
            &&& exists|j: int| 0 <= j < k && order[j] == e.from.0
            &&& offers(rows, e.from.0, order[k], e.weight)
            &&& e.weight == key_of(rows, order.take(k), order[k])
        },
{
    let t = order.take(k);
    let x = order[k];
    assert(tree[order[k] as int] == joining_edge(rows, t, x));
    let kv = key_of(rows, t, x);
    lemma_key_exists(rows, t, x);
    if kv < base_key(x) {
        let j = choose|j: int| 0 <= j < t.len() && #[trigger] offers(rows, t[j], x, kv);
        lemma_first_offer_exists(rows, t, x, kv, j);
        let jo = first_offer(rows, t, x, kv);
        assert(t[jo] == order[jo]);
    }
}

/// Whether every edge stored in one of the first `graph.v()` rows leads to
/// one of the first `graph.v()` vertices.
#[verifier::spinoff_prover]
#[verifier::rlimit(50)]
pub fn check_targets(graph: &DenseMatrixGraph) -> (r: bool)
    ensures
        r == targets_in_range(graph.rows(), graph.vertex_count()),
{
    let ghost rows = graph.rows();
    let v = graph.v();
    let mut u: usize = 0;
    while u < v
        invariant
            u <= v,
            v == graph.vertex_count(),
            rows == graph.rows(),
            forall|uu: usize, k: usize|
                uu < u && rows.contains_key(uu) && #[trigger] rows[uu].contains_key(k) ==> rows[uu][k].to.0 < v,
        decreases v - u,
    {
        if let Some(map) = graph.edges(Id(u)) {
            let ghost seq = vstd::std_specs::btree::spec_btree_map_iter(&map).remaining();
            let ghost mut done: int = 0;
            for (key, edge) in it: map.iter()
                invariant
                    it.seq() == seq,
                    done == it.index(),
                    map@ == rows[u],
                    rows.contains_key(u),
                    rows == graph.rows(),
                    u < v,
                    v == graph.vertex_count(),
                    forall|i: int| 0 <= i < done ==> (*#[trigger] seq[i].1).to.0 < v,
            {
                proof {
                    assert(map@.contains_key(*seq[done].0));
                    assert(map@[*seq[done].0] == *edge);
                }
                if edge.to.0 >= v {
                    proof {
                        assert(*key == *seq[done].0);
                        assert(rows[u].contains_key(*key));
                        assert(rows[u][*key] == *edge);
                    }
                    return false;
                }
                proof {
                    done = done + 1;
                }
            }
            proof {
                assert(done == seq.len());
                assert forall|k: usize| #[trigger] rows[u].contains_key(k) implies rows[u][k].to.0 < v by {
                    assert(map@.contains_key(k));
                    assert(seq.contains((&k, &map@[k])));
                    let i = choose|i: int| 0 <= i < seq.len() && seq[i] == (&k, &map@[k]);
                    assert((*seq[i].1).to.0 < v);
                }
            }
        }
        u += 1;
    }
    true
}

/// The edges through which the vertices `0 .. graph.v()` join the spanning
/// tree that Prim's algorithm grows from vertex 0, indexed by vertex, and
/// the number of steps the search took (`None` where that number does not
/// fit in a `usize`).
#[verifier::spinoff_prover]
#[verifier::rlimit(50)]
pub fn prim_mst_edges(graph: &DenseMatrixGraph) -> (result: (Vec<Option<Edge>>, Option<usize>))
    requires
        graph.vertex_count() >= 1,
        targets_in_range(graph.rows(), graph.vertex_count()),
    ensures
        exists|order: Seq<usize>|
            {
                &&& prim_order(graph.rows(), graph.vertex_count(), order)
                &&& prim_tree(graph.rows(), graph.vertex_count(), order, result.0@)
                &&& result.1 == if op_count(graph.rows(), graph.vertex_count(), order) <= usize::MAX {
                    Some(op_count(graph.rows(), graph.vertex_count(), order) as usize)
                } else {
                    None::<usize>
                }
            },
{
    let ghost rows = graph.rows();
    let v = graph.v();
    let mut in_mst: Vec<bool> = Vec::new();
    let mut min_edge: Vec<u64> = Vec::new();
    let mut parent: Vec<Option<Id>> = Vec::new();
    let mut mst_edges: Vec<Option<Edge>> = Vec::new();
    let mut c: usize = 0;
    while c < v
        invariant
            c <= v,
            in_mst@.len() == c,
            min_edge@.len() == c,
            parent@.len() == c,
            mst_edges@.len() == c,
            forall|x: int| 0 <= x < c ==> !in_mst@[x] && min_edge@[x] == u64::MAX && parent@[x] is None
                && mst_edges@[x] is None,
        decreases v - c,
    {
        in_mst.push(false);
        min_edge.push(u64::MAX);
        parent.push(None);
        mst_edges.push(None);
        c += 1;
    }
    min_edge.set(0, 0);
    let ghost mut order: Seq<usize> = Seq::empty();
    proof {
        assert forall|x: usize| x < v && !order.contains(x) implies #[trigger] parent@[x as int] == parent_of(
            rows,
            order,
            x,
            min_edge@[x as int],
        ) by {
            assert(min_edge@[x as int] == base_key(x));
            assert(parent@[x as int] is None);
        }
        assert forall|x: usize| x < v && !order.contains(x) implies #[trigger] mst_edges@[x as int] is None by {
            assert(!in_mst@[x as int]);
        }
    }
    let mut step: usize = 0;
    let mut cnt: usize = 0;
    let mut over: bool = false;
    while step < v
        invariant
            !over ==> cnt == step * v + rows_scanned(rows, order),
            over ==> step * v + rows_scanned(rows, order) > usize::MAX,
            v == graph.vertex_count(),
            rows == graph.rows(),
            targets_in_range(rows, v),
            step <= v,
            in_mst@.len() == v,
            min_edge@.len() == v,
            parent@.len() == v,
            mst_edges@.len() == v,
            order.len() == step,
            order.no_duplicates(),
            forall|k: int| 0 <= k < step ==> order[k] < v,
            forall|x: usize| x < v ==> in_mst@[x as int] == order.contains(x),
            forall|k: int| 0 <= k < step ==> #[trigger] is_next(rows, v, order.take(k), order[k]),
            forall|x: usize| x < v && !order.contains(x) ==> is_key(rows, order, x, #[trigger] min_edge@[x as int]),
            forall|x: usize|
                x < v && !order.contains(x) ==> #[trigger] parent@[x as int] == parent_of(rows, order, x, min_edge@[x as int]),
            forall|x: usize| x < v && !order.contains(x) ==> #[trigger] mst_edges@[x as int] is None,
            forall|k: int| 0 <= k < step ==> mst_edges@[#[trigger] order[k] as int] == joining_edge(rows, order.take(k), order[k]),
        decreases v - step,
    {
        // the vertex outside the tree with the least key
        let mut u: Option<usize> = None;
        let mut i: usize = 0;
        while i < v
            invariant
                i <= v,
                in_mst@.len() == v,
                min_edge@.len() == v,
                u matches Some(uu) ==> uu < i && !in_mst@[uu as int],
                u is None ==> forall|x: int| 0 <= x < i ==> in_mst@[x],
                u matches Some(uu) ==> forall|x: int|
                    0 <= x < i && !in_mst@[x] ==> min_edge@[uu as int] <= min_edge@[x] && (min_edge@[uu as int]
                        == min_edge@[x] ==> uu <= x),
            decreases v - i,
        {
            if !in_mst[i] && (u.is_none() || min_edge[i] < min_edge[u.unwrap()]) {
                u = Some(i);
            }
            i += 1;
        }
        proof {
            lemma_some_vertex_left(order, v);
            let x = choose|x: usize| x < v && !order.contains(x);
            assert(!in_mst@[x as int]);
        }
        let u = u.unwrap();
        proof {
            assert((step + 1) * v == step * v + v) by (nonlinear_arith);
        }
        if !over {
            match cnt.checked_add(v) {
                Some(c) => cnt = c,
                None => over = true,
            }
        }
        proof {
            assert forall|x: usize| x < v && !order.contains(x) implies key_of(rows, order, x) == min_edge@[x as int] by {
                lemma_key_of(rows, order, x, min_edge@[x as int]);
            }
            assert(!order.contains(u));
            assert(is_next(rows, v, order, u));
        }
        in_mst.set(u, true);
        if let Some(p) = parent[u] {
            mst_edges.set(u, Some(Edge::new(p, Id(u), min_edge[u])));
        }
        proof {
            assert(key_of(rows, order, u) == min_edge@[u as int]);
            assert(mst_edges@[u as int] == joining_edge(rows, order, u));
        }
        let ghost old_min = min_edge@;
        let ghost old_parent = parent@;
        let ghost tree = order.push(u);
        proof {
            assert forall|x: usize| #[trigger] tree.contains(x) == (order.contains(x) || x == u) by {
                if tree.contains(x) && x != u {
                    let k = choose|k: int| 0 <= k < tree.len() && tree[k] == x;
                    assert(order[k] == x);
                }
                if order.contains(x) {
                    let k = choose|k: int| 0 <= k < order.len() && order[k] == x;
                    assert(tree[k] == x);
                }
                if x == u {
                    assert(tree[order.len() as int] == u);
                }
            }
        }
        if let Some(map) = graph.edges(u.into()) {
            let ghost seq = vstd::std_specs::btree::spec_btree_map_iter(&map).remaining();
            let ghost mut done: int = 0;
            for (_, edge) in it: map.iter()
                invariant
                    it.seq() == seq,
                    done == it.index(),
                    v == graph.vertex_count(),
                    rows == graph.rows(),
                    targets_in_range(rows, v),
                    u < v,
                    rows.contains_key(u),
                    map@ == rows[u],
                    in_mst@.len() == v,
                    min_edge@.len() == v,
                    parent@.len() == v,
                    forall|x: usize| x < v ==> in_mst@[x as int] == tree.contains(x),
                    forall|x: usize| x < v && !tree.contains(x) ==> #[trigger] min_edge@[x as int] <= old_min[x as int],
                    forall|x: usize, i: int|
                        #![trigger min_edge@[x as int], it.seq()[i]]
                        x < v && !tree.contains(x) && 0 <= i < it.index() && (*it.seq()[i].1).to.0 == x
                            ==> min_edge@[x as int] <= (*it.seq()[i].1).weight,
                    forall|x: usize|
                        x < v && !tree.contains(x) && #[trigger] min_edge@[x as int] != old_min[x as int] ==> exists|i: int|
                            0 <= i < it.index() && (*it.seq()[i].1).to.0 == x && (*it.seq()[i].1).weight
                                == min_edge@[x as int],
                    forall|x: usize|
                        x < v && !tree.contains(x) ==> #[trigger] parent@[x as int] == if min_edge@[x as int]
                            == old_min[x as int] {
                            old_parent[x as int]
                        } else {
                            Some(Id(u))
                        },
                    forall|x: int| 0 <= x < v && tree.contains(x as usize) ==> min_edge@[x] == old_min[x] && parent@[x]
                        == old_parent[x],
            {
                proof {
                    assert(map@.contains_key(*it.seq()[it.index()].0));
                    assert(map@[*it.seq()[it.index()].0] == *edge);
                }
                let w = edge.to.0;
                if !in_mst[w] && edge.weight < min_edge[w] {
                    min_edge.set(w, edge.weight);
                    parent.set(w, Some(u.into()));
                }
                proof {
                    done = done + 1;
                }
            }
            proof {
                assert(done == seq.len());
                assert forall|x: usize|
                    #![trigger min_edge@[x as int]]
                    x < v && !tree.contains(x) implies (forall|w: u64| #[trigger] offers(rows, u, x, w) ==> min_edge@[x as int] <= w)
                        && (min_edge@[x as int] != old_min[x as int] ==> offers(rows, u, x, min_edge@[x as int])) by {
                    assert forall|w: u64| #[trigger] offers(rows, u, x, w) implies min_edge@[x as int] <= w by {
                        let k = choose|k: usize| #[trigger] rows[u].contains_key(k) && rows[u][k].to.0 == x && rows[u][k].weight == w;
                        assert(map@.contains_key(k));
                        assert(seq.contains((&k, &map@[k])));
                        let i = choose|i: int| 0 <= i < seq.len() && seq[i] == (&k, &map@[k]);
                        assert((*seq[i].1).to.0 == x);
                    }
                    if min_edge@[x as int] != old_min[x as int] {
                        let i = choose|i: int|
                            0 <= i < done && (*seq[i].1).to.0 == x && (*seq[i].1).weight == min_edge@[x as int];
                        let k = *seq[i].0;
                        assert(map@.contains_key(k));
                        assert(rows[u].contains_key(k));
                    }
                }
                assert(relaxed(rows, v, tree, u, old_min, min_edge@, old_parent, parent@));
            }
            let len = map.len();
            if !over {
                match cnt.checked_add(len) {
                    Some(c) => cnt = c,
                    None => over = true,
                }
            }
        } else {
            assert(relaxed(rows, v, tree, u, old_min, min_edge@, old_parent, parent@));
        }
        proof {
            lemma_relax_step(rows, v, order, u, old_min, min_edge@, old_parent, parent@);
            assert forall|k: int| 0 <= k < step implies tree.take(k) == order.take(k) by {
                assert(tree.take(k) =~= order.take(k));
            }
            assert(tree.take(step as int) =~= order);
        }
        proof {
            assert(tree.drop_last() =~= order);
            assert(rows_scanned(rows, tree) == rows_scanned(rows, order) + row_len(rows, u));
            order = tree;
        }
        step += 1;
    }
    proof {
        assert(prim_order(rows, v, order));
        assert(prim_tree(rows, v, order, mst_edges@));
    }
    let ops = if over {
        None
    } else {
        Some(cnt)
    };
    (mst_edges, ops)
}

} // verus!
