//! Prim's tree weighs no more than any other spanning tree of a graph whose
//! edges weigh the same in both directions.
//!
//! The proof exchanges edges: a spanning tree that agrees with Prim's tree
//! on the first `k` vertices to join is turned into one that also agrees on
//! vertex `k`, without growing heavier. The path in that tree from the
//! joining vertex up to the vertices already joined is turned around and
//! hung from Prim's edge; the edge that left the path is dropped, and it
//! weighs no less than Prim's edge, which is the lightest way in.

use vstd::prelude::*;
use crate::graph::{complete_rows, distinct_ids, law_from_points_symmetric, Edge, Rows};
use crate::id::Id;
use crate::mst::{
    joining_edge,
    key_of,
    law_prim_light_edge,
    law_prim_order_permutation,
    law_prim_tree_edges,
    offers,
    prim_order,
    prim_tree,
};

verus! {

/// Every edge between two of the first `n` vertices weighs the same in both
/// directions.
pub open spec fn symmetric(rows: Rows, n: usize) -> bool {
    forall|a: usize, b: usize, w: u64| a < n && b < n && #[trigger] offers(rows, a, b, w) ==> offers(rows, b, a, w)
}

/// The complete graph that `from_points` builds over distinct ids weighs
/// each edge the same in both directions, so Prim's tree over it is a
/// minimum spanning tree.
pub proof fn law_complete_graph_symmetric(ids: Seq<Id>, weights: Seq<Vec<u64>>, n: usize)
    requires
        distinct_ids(ids),
        weights.len() == ids.len(),
        forall|p: int| 0 <= p < ids.len() ==> #[trigger] weights[p].len() == ids.len(),
    ensures
        symmetric(complete_rows(ids, weights, ids.len() as int), n),
{
    let rows = complete_rows(ids, weights, ids.len() as int);
    assert forall|a: usize, b: usize, w: u64| a < n && b < n && #[trigger] offers(rows, a, b, w) implies offers(
        rows,
        b,
        a,
        w,
    ) by {
        let k = choose|k: usize| #[trigger] rows[a].contains_key(k) && rows[a][k].to.0 == b && rows[a][k].weight == w;
        law_from_points_symmetric(ids, weights, a, k);
        assert(rows[b].contains_key(a));
    }
}

/// `par` and `wt` describe a spanning tree of the first `n` vertices rooted
/// at 0: every other vertex `x` hangs from `par[x]` by an edge of the graph
/// weighing `wt[x]`, and `rank` decreases from each vertex to its parent,
/// so that following parents always ends at the root.
pub open spec fn is_spanning_tree(rows: Rows, n: usize, par: Seq<usize>, wt: Seq<u64>, rank: Seq<nat>) -> bool {
    &&& par.len() == n
    &&& wt.len() == n
    &&& rank.len() == n
    &&& wt[0] == 0
    &&& forall|x: int|
        1 <= x < n ==> #[trigger] par[x] < n && offers(rows, par[x], x as usize, wt[x]) && rank[par[x] as int]
            < rank[x]
}

/// The sum of the weights.
pub open spec fn total(s: Seq<u64>) -> int
    decreases s.len(),
{
    if s.len() == 0 {
        0
    } else {
        total(s.drop_last()) + s.last()
    }
}

/// The weight through which each vertex joins Prim's tree (0 for none).
pub open spec fn prim_weights(tree: Seq<Option<Edge>>) -> Seq<u64> {
    Seq::new(
        tree.len(),
        |x: int|
            match tree[x] {
                Some(e) => e.weight,
                None => 0,
            },
    )
}

/// The tree `par`, `wt` hangs each of the first `k` vertices of Prim's
/// order but the root from its parent in Prim's tree, at the same weight.
spec fn agrees(order: Seq<usize>, tree: Seq<Option<Edge>>, par: Seq<usize>, wt: Seq<u64>, k: int) -> bool {
    forall|j: int|
        1 <= j < k ==> (#[trigger] tree[order[j] as int] matches Some(e) && par[order[j] as int] == e.from.0 && wt[order[j] as int] == e.weight)
}

proof fn lemma_total_update(s: Seq<u64>, i: int, v: u64)
    requires
        0 <= i < s.len(),
    ensures
        total(s.update(i, v)) == total(s) - s[i] + v,
    decreases s.len(),
{
    let t = s.update(i, v);
    if i == s.len() - 1 {
        assert(t.drop_last() =~= s.drop_last());
    } else {
        lemma_total_update(s.drop_last(), i, v);
        assert(t.drop_last() =~= s.drop_last().update(i, v));
    }
}

/// The `i`-th ancestor of `v`.
spec fn anc(par: Seq<usize>, v: usize, i: nat) -> usize
    decreases i,
{
    if i == 0 {
        v
    } else {
        par[anc(par, v, (i - 1) as nat) as int]
    }
}

/// Following parents from a vertex outside a parent-closed set that holds
/// the root, ranks fall at every step.
proof fn lemma_anc_outside(
    rows: Rows,
    n: usize,
    par: Seq<usize>,
    wt: Seq<u64>,
    rank: Seq<nat>,
    t: Seq<usize>,
    u: usize,
    i: nat,
)
    requires
        is_spanning_tree(rows, n, par, wt, rank),
        t.contains(0usize),
        u < n,
        forall|l: nat| l <= i ==> !t.contains(#[trigger] anc(par, u, l)),
    ensures
        anc(par, u, i) < n,
        anc(par, u, i) != 0,
        rank[anc(par, u, i) as int] + i <= rank[u as int],
    decreases i,
{
    assert(!t.contains(anc(par, u, i)));
    if i > 0 {
        lemma_anc_outside(rows, n, par, wt, rank, t, u, (i - 1) as nat);
        let a = anc(par, u, (i - 1) as nat);
        assert(!t.contains(anc(par, u, (i - 1) as nat)));
        assert(1 <= a < n);
        assert(par[a as int] < n);
    }
}

/// Following parents from `u` reaches the set `t` (closed under parents and
/// holding the root) within `rank[u] + 1` steps, and there is a first step
/// at which it does.
proof fn lemma_reaches(
    rows: Rows,
    n: usize,
    par: Seq<usize>,
    wt: Seq<u64>,
    rank: Seq<nat>,
    t: Seq<usize>,
    u: usize,
) -> (m: nat)
    requires
        is_spanning_tree(rows, n, par, wt, rank),
        t.contains(0usize),
        u < n,
    ensures
        t.contains(anc(par, u, m)),
        forall|l: nat| l < m ==> !t.contains(#[trigger] anc(par, u, l)),
{
    let bound = (rank[u as int] + 1) as nat;
    if forall|l: nat| l <= bound ==> !t.contains(#[trigger] anc(par, u, l)) {
        lemma_anc_outside(rows, n, par, wt, rank, t, u, bound);
    }
    let l0 = choose|l: nat| l <= bound && t.contains(#[trigger] anc(par, u, l));
    lemma_least_reach(par, t, u, l0)
}

proof fn lemma_least_reach(par: Seq<usize>, t: Seq<usize>, u: usize, l0: nat) -> (m: nat)
    requires
        t.contains(anc(par, u, l0)),
    ensures
        t.contains(anc(par, u, m)),
        forall|l: nat| l < m ==> !t.contains(#[trigger] anc(par, u, l)),
    decreases l0,
{
    if exists|l: nat| l < l0 && t.contains(#[trigger] anc(par, u, l)) {
        let l1 = choose|l: nat| l < l0 && t.contains(#[trigger] anc(par, u, l));
        lemma_least_reach(par, t, u, l1)
    } else {
        l0
    }
}

/// Ranks fall strictly along the ancestors of `u` up to the first one in
/// `t`, so those ancestors are distinct.
proof fn lemma_path_distinct(
    rows: Rows,
    n: usize,
    par: Seq<usize>,
    wt: Seq<u64>,
    rank: Seq<nat>,
    t: Seq<usize>,
    u: usize,
    m: nat,
    a: nat,
    b: nat,
)
    requires
        is_spanning_tree(rows, n, par, wt, rank),
        t.contains(0usize),
        u < n,
        forall|l: nat| l < m ==> !t.contains(#[trigger] anc(par, u, l)),
        a < b <= m,
    ensures
        rank[anc(par, u, b) as int] < rank[anc(par, u, a) as int],
        anc(par, u, b) < n,
    decreases b - a,
{
    let x = anc(par, u, (b - 1) as nat);
    lemma_anc_outside(rows, n, par, wt, rank, t, u, (b - 1) as nat);
    assert(1 <= x < n);
    assert(anc(par, u, b) == par[x as int]);
    if a < b - 1 {
        lemma_path_distinct(rows, n, par, wt, rank, t, u, m, a, (b - 1) as nat);
    }
}

/// The greatest rank.
spec fn seq_max(s: Seq<nat>) -> nat
    decreases s.len(),
{
    if s.len() == 0 {
        0
    } else {
        let r = seq_max(s.drop_last());
        if s.last() > r {
            s.last()
        } else {
            r
        }
    }
}

proof fn lemma_seq_max(s: Seq<nat>, i: int)
    requires
        0 <= i < s.len(),
    ensures
        s[i] <= seq_max(s),
    decreases s.len(),
{
    if i < s.len() - 1 {
        lemma_seq_max(s.drop_last(), i);
    }
}

/// The parents after turning the path from `u` up to its `i`-th ancestor
/// around and hanging `u` from `p`.
spec fn rewired_par(par: Seq<usize>, u: usize, p: usize, i: nat) -> Seq<usize>
    decreases i,
{
    if i == 0 {
        par.update(u as int, p)
    } else {
        rewired_par(par, u, p, (i - 1) as nat).update(anc(par, u, i) as int, anc(par, u, (i - 1) as nat))
    }
}

/// The weights after the same change: `u` now weighs `key`, and each
/// ancestor on the path takes the weight of the edge below it.
spec fn rewired_wt(par: Seq<usize>, wt: Seq<u64>, u: usize, key: u64, i: nat) -> Seq<u64>
    decreases i,
{
    if i == 0 {
        wt.update(u as int, key)
    } else {
        rewired_wt(par, wt, u, key, (i - 1) as nat).update(
            anc(par, u, i) as int,
            wt[anc(par, u, (i - 1) as nat) as int],
        )
    }
}

/// The path vertices `anc(u, 0 ..= bound)` are distinct and lie below `n`.
spec fn path_ok(par: Seq<usize>, n: usize, u: usize, bound: nat) -> bool {
    &&& forall|l: nat| l <= bound ==> #[trigger] anc(par, u, l) < n
    &&& forall|a: nat, b: nat| a < b <= bound ==> #[trigger] anc(par, u, a) != #[trigger] anc(par, u, b)
}

#[verifier::spinoff_prover]
#[verifier::rlimit(50)]
proof fn lemma_rewired(par: Seq<usize>, wt: Seq<u64>, n: usize, u: usize, p: usize, key: u64, i: nat, bound: nat)
    requires
        par.len() == n,
        wt.len() == n,
        i <= bound,
        path_ok(par, n, u, bound),
    ensures
        rewired_par(par, u, p, i).len() == n,
        rewired_wt(par, wt, u, key, i).len() == n,
        rewired_par(par, u, p, i)[u as int] == p,
        rewired_wt(par, wt, u, key, i)[u as int] == key,
        forall|j: nat|
            1 <= j <= i ==> rewired_par(par, u, p, i)[#[trigger] anc(par, u, j) as int] == anc(par, u, (j - 1) as nat)
                && rewired_wt(par, wt, u, key, i)[anc(par, u, j) as int] == wt[anc(par, u, (j - 1) as nat) as int],
        forall|v: usize|
            v < n && (forall|j: nat| j <= i ==> #[trigger] anc(par, u, j) != v) ==> rewired_par(par, u, p, i)[v as int]
                == par[v as int] && rewired_wt(par, wt, u, key, i)[v as int] == wt[v as int],
        total(rewired_wt(par, wt, u, key, i)) == total(wt) - wt[anc(par, u, i) as int] + key,
    decreases i,
{
    assert(anc(par, u, 0) == u);
    assert(anc(par, u, 0) < n);
    if i == 0 {
        lemma_total_update(wt, u as int, key);
        assert forall|v: usize| v < n && (forall|j: nat| j <= i ==> #[trigger] anc(par, u, j) != v) implies rewired_par(
            par,
            u,
            p,
            i,
        )[v as int] == par[v as int] && rewired_wt(par, wt, u, key, i)[v as int] == wt[v as int] by {
            assert(anc(par, u, 0) != v);
        }
    } else {
        lemma_rewired(par, wt, n, u, p, key, (i - 1) as nat, bound);
        let a = anc(par, u, i);
        assert(a < n);
        let prev_w = rewired_wt(par, wt, u, key, (i - 1) as nat);
        assert(forall|j: nat| j <= (i - 1) as nat ==> #[trigger] anc(par, u, j) != a) by {
            assert forall|j: nat| j <= (i - 1) as nat implies #[trigger] anc(par, u, j) != a by {
                assert(anc(par, u, j) != anc(par, u, i));
            }
        }
        assert(prev_w[a as int] == wt[a as int]);
        lemma_total_update(prev_w, a as int, wt[anc(par, u, (i - 1) as nat) as int]);
        assert(a != u) by {
            assert(anc(par, u, 0) != anc(par, u, i));
        }
        assert forall|j: nat| 1 <= j <= i implies rewired_par(par, u, p, i)[#[trigger] anc(par, u, j) as int] == anc(
            par,
            u,
            (j - 1) as nat,
        ) && rewired_wt(par, wt, u, key, i)[anc(par, u, j) as int] == wt[anc(par, u, (j - 1) as nat) as int] by {
            if j < i {
                assert(anc(par, u, j) != anc(par, u, i));
            }
        }
        assert forall|v: usize| v < n && (forall|j: nat| j <= i ==> #[trigger] anc(par, u, j) != v) implies rewired_par(
            par,
            u,
            p,
            i,
        )[v as int] == par[v as int] && rewired_wt(par, wt, u, key, i)[v as int] == wt[v as int] by {
            assert(anc(par, u, i) != v);
            assert forall|j: nat| j <= (i - 1) as nat implies #[trigger] anc(par, u, j) != v by {
                assert(j <= i);
            }
        }
    }
}

/// The ranks after the exchange: vertices of `t` keep theirs, the path from
/// `u` comes above all of them in the order it now hangs, and every other
/// vertex comes above the path.
spec fn rewired_rank(rank: Seq<nat>, par: Seq<usize>, t: Seq<usize>, u: usize, m: nat, n: usize) -> Seq<nat> {
    let b = seq_max(rank);
    Seq::new(
        n as nat,
        |v: int|
            if t.contains(v as usize) {
                rank[v]
            } else if exists|j: nat| j < m && #[trigger] anc(par, u, j) == v as usize {
                b + 1 + choose|j: nat| j < m && #[trigger] anc(par, u, j) == v as usize
            } else {
                rank[v] + b + m + 1
            },
    )
}

/// What the exchange for vertex `u` relies on: `t` holds the root, is
/// closed under parents and misses `u`; `m` is the first step at which the
/// ancestors of `u` reach `t`; Prim's edge into `u` comes from `p` in `t`
/// and weighs `key`, no more than the edge that leaves the path.
spec fn exchange_facts(
    rows: Rows,
    n: usize,
    par: Seq<usize>,
    wt: Seq<u64>,
    rank: Seq<nat>,
    t: Seq<usize>,
    u: usize,
    m: nat,
    p: usize,
    key: u64,
) -> bool {
    &&& is_spanning_tree(rows, n, par, wt, rank)
    &&& forall|x: int| 1 <= x < n ==> wt[x] < u64::MAX
    &&& symmetric(rows, n)
    &&& t.contains(0usize)
    &&& !t.contains(u)
    &&& u < n
    &&& u != 0
    &&& forall|v: usize| t.contains(v) && v != 0 ==> t.contains(#[trigger] par[v as int])
    &&& m >= 1
    &&& t.contains(anc(par, u, m))
    &&& forall|l: nat| l < m ==> !t.contains(#[trigger] anc(par, u, l))
    &&& t.contains(p)
    &&& p < n
    &&& offers(rows, p, u, key)
    &&& key <= wt[anc(par, u, (m - 1) as nat) as int]
}

/// The facts for the exchange at step `k`, with the path's length, the
/// parent and the key of the joining vertex.
#[verifier::spinoff_prover]
#[verifier::rlimit(50)]
proof fn lemma_exchange_setup(
    rows: Rows,
    n: usize,
    order: Seq<usize>,
    tree: Seq<Option<Edge>>,
    par: Seq<usize>,
    wt: Seq<u64>,
    rank: Seq<nat>,
    k: int,
) -> (r: (nat, usize, u64))
    requires
        prim_order(rows, n, order),
        prim_tree(rows, n, order, tree),
        symmetric(rows, n),
        is_spanning_tree(rows, n, par, wt, rank),
        forall|x: int| 1 <= x < n ==> wt[x] < u64::MAX,
        agrees(order, tree, par, wt, k),
        1 <= k < n,
    ensures
        exchange_facts(rows, n, par, wt, rank, order.take(k), order[k], r.0, r.1, r.2),
        forall|j: int| 0 <= j < n ==> #[trigger] order[j] < n,
        tree[order[k] as int] == Some(Edge { from: crate::id::Id(r.1), to: crate::id::Id(order[k]), weight: r.2 }),
{
    law_prim_order_permutation(rows, n, order);
    let t = order.take(k);
    let u = order[k];
    assert(t.contains(0usize)) by {
        assert(t[0] == order[0]);
    }
    assert(!t.contains(u)) by {
        if t.contains(u) {
            let j = choose|j: int| 0 <= j < t.len() && t[j] == u;
            assert(order[j] == order[k]);
        }
    }
    assert(u != 0);
    assert forall|v: usize| t.contains(v) && v != 0 implies t.contains(#[trigger] par[v as int]) by {
        let j = choose|j: int| 0 <= j < t.len() && t[j] == v;
        assert(order[j] == v);
        assert(j != 0);
        assert(tree[order[j] as int] matches Some(e) && par[order[j] as int] == e.from.0);
        law_prim_tree_edges(rows, n, order, tree, j);
        let e = tree[order[j] as int].unwrap();
        let j2 = choose|j2: int| 0 <= j2 < j && order[j2] == e.from.0;
        assert(t[j2] == order[j2]);
    }
    let m = lemma_reaches(rows, n, par, wt, rank, t, u);
    assert(m >= 1) by {
        if m == 0 {
            assert(anc(par, u, 0) == u);
        }
    }
    let y = anc(par, u, (m - 1) as nat);
    lemma_anc_outside(rows, n, par, wt, rank, t, u, (m - 1) as nat);
    let xm = anc(par, u, m);
    assert(xm == par[y as int]);
    let jm = choose|jm: int| 0 <= jm < t.len() && t[jm] == xm;
    assert(order[jm] == xm);
    assert(offers(rows, xm, y, wt[y as int]));
    assert(!t.contains(anc(par, u, (m - 1) as nat)));
    law_prim_light_edge(rows, n, order, k, jm, y, wt[y as int]);
    let key = key_of(rows, t, u);
    assert(key < u64::MAX);
    assert(tree[order[k] as int] == joining_edge(rows, order.take(k), order[k]));
    assert(tree[u as int] is Some);
    law_prim_tree_edges(rows, n, order, tree, k);
    let e = tree[u as int].unwrap();
    let p = e.from.0;
    let jp = choose|j: int| 0 <= j < k && order[j] == e.from.0;
    assert(t[jp] == p);
    (m, p, key)
}

/// After the exchange, the path from `u` hangs from `p`, turned around.
#[verifier::spinoff_prover]
#[verifier::rlimit(50)]
proof fn lemma_exchange_tree(
    rows: Rows,
    n: usize,
    par: Seq<usize>,
    wt: Seq<u64>,
    rank: Seq<nat>,
    t: Seq<usize>,
    u: usize,
    m: nat,
    p: usize,
    key: u64,
)
    requires
        exchange_facts(rows, n, par, wt, rank, t, u, m, p, key),
    ensures
        path_ok(par, n, u, (m - 1) as nat),
        is_spanning_tree(
            rows,
            n,
            rewired_par(par, u, p, (m - 1) as nat),
            rewired_wt(par, wt, u, key, (m - 1) as nat),
            rewired_rank(rank, par, t, u, m, n),
        ),
        forall|x: int| 1 <= x < n ==> #[trigger] rewired_wt(par, wt, u, key, (m - 1) as nat)[x] < u64::MAX,
        forall|v: usize|
            v < n && t.contains(v) ==> rewired_par(par, u, p, (m - 1) as nat)[v as int] == par[v as int]
                && rewired_wt(par, wt, u, key, (m - 1) as nat)[v as int] == wt[v as int],
        rewired_par(par, u, p, (m - 1) as nat)[u as int] == p,
        rewired_wt(par, wt, u, key, (m - 1) as nat)[u as int] == key,
        total(rewired_wt(par, wt, u, key, (m - 1) as nat)) <= total(wt),
{
    let last = (m - 1) as nat;
    assert forall|l: nat| l <= last implies #[trigger] anc(par, u, l) < n by {
        lemma_anc_outside(rows, n, par, wt, rank, t, u, l);
    }
    assert forall|a: nat, b: nat| a < b <= last implies #[trigger] anc(par, u, a) != #[trigger] anc(par, u, b) by {
        lemma_path_distinct(rows, n, par, wt, rank, t, u, m, a, b);
    }
    assert(path_ok(par, n, u, last));
    lemma_rewired(par, wt, n, u, p, key, last, last);
    lemma_anc_outside(rows, n, par, wt, rank, t, u, last);
    let np = rewired_par(par, u, p, last);
    let nw = rewired_wt(par, wt, u, key, last);
    let nr = rewired_rank(rank, par, t, u, m, n);
    let b = seq_max(rank);
    assert forall|j: nat| j < m implies nr[#[trigger] anc(par, u, j) as int] == b + 1 + j by {
        lemma_path_rank(rows, n, par, wt, rank, t, u, m, p, key, j);
    }
    assert forall|x: int| 1 <= x < n implies #[trigger] np[x] < n && offers(rows, np[x], x as usize, nw[x])
        && nr[np[x] as int] < nr[x] by {
        lemma_exchange_vertex(rows, n, par, wt, rank, t, u, m, p, key, x);
    }
    assert(nw[0] == 0) by {
        assert forall|j: nat| j <= last implies #[trigger] anc(par, u, j) != 0usize by {
            lemma_anc_outside(rows, n, par, wt, rank, t, u, j);
        }
    }
    lemma_exchange_bounds(rows, n, par, wt, rank, t, u, m, p, key);
    lemma_exchange_keeps(rows, n, par, wt, rank, t, u, m, p, key);
}

#[verifier::spinoff_prover]
#[verifier::rlimit(50)]
proof fn lemma_exchange_bounds(
    rows: Rows,
    n: usize,
    par: Seq<usize>,
    wt: Seq<u64>,
    rank: Seq<nat>,
    t: Seq<usize>,
    u: usize,
    m: nat,
    p: usize,
    key: u64,
)
    requires
        exchange_facts(rows, n, par, wt, rank, t, u, m, p, key),
        path_ok(par, n, u, (m - 1) as nat),
    ensures
        forall|x: int| 1 <= x < n ==> #[trigger] rewired_wt(par, wt, u, key, (m - 1) as nat)[x] < u64::MAX,
{
    let last = (m - 1) as nat;
    lemma_rewired(par, wt, n, u, p, key, last, last);
    let nw = rewired_wt(par, wt, u, key, last);
    lemma_anc_outside(rows, n, par, wt, rank, t, u, last);
    let y = anc(par, u, last);
    assert(1 <= y < n);
    assert(wt[y as int] < u64::MAX);
    assert forall|x: int| 1 <= x < n implies #[trigger] nw[x] < u64::MAX by {
        let xv = x as usize;
        if xv == u {
            assert(nw[u as int] == key);
        } else if exists|j: nat| 1 <= j <= last && #[trigger] anc(par, u, j) == xv {
            let j = choose|j: nat| 1 <= j <= last && #[trigger] anc(par, u, j) == xv;
            lemma_anc_outside(rows, n, par, wt, rank, t, u, (j - 1) as nat);
            let below = anc(par, u, (j - 1) as nat);
            assert(nw[x] == wt[below as int]);
            assert(1 <= below < n);
            assert(wt[below as int] < u64::MAX);
        } else {
            assert forall|j: nat| j <= last implies #[trigger] anc(par, u, j) != xv by {
                if j == 0 {
                    assert(anc(par, u, 0) == u);
                }
            }
            assert(nw[x] == wt[x]);
            assert(wt[x] < u64::MAX);
        }
    }
}

#[verifier::spinoff_prover]
#[verifier::rlimit(50)]
proof fn lemma_exchange_keeps(
    rows: Rows,
    n: usize,
    par: Seq<usize>,
    wt: Seq<u64>,
    rank: Seq<nat>,
    t: Seq<usize>,
    u: usize,
    m: nat,
    p: usize,
    key: u64,
)
    requires
        exchange_facts(rows, n, par, wt, rank, t, u, m, p, key),
        path_ok(par, n, u, (m - 1) as nat),
    ensures
        forall|v: usize|
            v < n && t.contains(v) ==> rewired_par(par, u, p, (m - 1) as nat)[v as int] == par[v as int]
                && rewired_wt(par, wt, u, key, (m - 1) as nat)[v as int] == wt[v as int],
        total(rewired_wt(par, wt, u, key, (m - 1) as nat)) <= total(wt),
{
    let last = (m - 1) as nat;
    lemma_rewired(par, wt, n, u, p, key, last, last);
    assert forall|v: usize| v < n && t.contains(v) implies rewired_par(par, u, p, last)[v as int] == par[v as int]
        && rewired_wt(par, wt, u, key, last)[v as int] == wt[v as int] by {
        assert forall|l: nat| l <= last implies #[trigger] anc(par, u, l) != v by {
            lemma_anc_outside(rows, n, par, wt, rank, t, u, l);
        }
    }
}

/// A path vertex sits at its own position on the path.
proof fn lemma_path_rank(
    rows: Rows,
    n: usize,
    par: Seq<usize>,
    wt: Seq<u64>,
    rank: Seq<nat>,
    t: Seq<usize>,
    u: usize,
    m: nat,
    p: usize,
    key: u64,
    j: nat,
)
    requires
        exchange_facts(rows, n, par, wt, rank, t, u, m, p, key),
        j < m,
    ensures
        rewired_rank(rank, par, t, u, m, n)[anc(par, u, j) as int] == seq_max(rank) + 1 + j,
{
    let v = anc(par, u, j);
    lemma_anc_outside(rows, n, par, wt, rank, t, u, j);
    assert(!t.contains(v));
    let c = choose|c: nat| c < m && #[trigger] anc(par, u, c) == v;
    if c != j {
        if c < j {
            lemma_path_distinct(rows, n, par, wt, rank, t, u, m, c, j);
        } else {
            lemma_path_distinct(rows, n, par, wt, rank, t, u, m, j, c);
        }
    }
}

/// The parent, weight and rank of vertex `x` after the exchange fit.
#[verifier::spinoff_prover]
#[verifier::rlimit(50)]
proof fn lemma_exchange_vertex(
    rows: Rows,
    n: usize,
    par: Seq<usize>,
    wt: Seq<u64>,
    rank: Seq<nat>,
    t: Seq<usize>,
    u: usize,
    m: nat,
    p: usize,
    key: u64,
    x: int,
)
    requires
        exchange_facts(rows, n, par, wt, rank, t, u, m, p, key),
        path_ok(par, n, u, (m - 1) as nat),
        1 <= x < n,
        forall|j: nat| j < m ==> rewired_rank(rank, par, t, u, m, n)[#[trigger] anc(par, u, j) as int] == seq_max(rank)
            + 1 + j,
    ensures
        ({
            let np = rewired_par(par, u, p, (m - 1) as nat);
            let nw = rewired_wt(par, wt, u, key, (m - 1) as nat);
            let nr = rewired_rank(rank, par, t, u, m, n);
            np[x] < n && offers(rows, np[x], x as usize, nw[x]) && nr[np[x] as int] < nr[x]
        }),
{
    let last = (m - 1) as nat;
    lemma_rewired(par, wt, n, u, p, key, last, last);
    let np = rewired_par(par, u, p, last);
    let nw = rewired_wt(par, wt, u, key, last);
    let nr = rewired_rank(rank, par, t, u, m, n);
    let b = seq_max(rank);
    let xv = x as usize;
    if xv == u {
        lemma_seq_max(rank, p as int);
        assert(anc(par, u, 0) == u);
        assert(nr[x] == b + 1);
        assert(nr[p as int] == rank[p as int]);
    } else if exists|j: nat| 1 <= j <= last && #[trigger] anc(par, u, j) == xv {
        let j = choose|j: nat| 1 <= j <= last && #[trigger] anc(par, u, j) == xv;
        let below = anc(par, u, (j - 1) as nat);
        assert(np[x] == below);
        assert(nw[x] == wt[below as int]);
        lemma_anc_outside(rows, n, par, wt, rank, t, u, (j - 1) as nat);
        assert(par[below as int] == xv);
        assert(offers(rows, xv, below, wt[below as int]));
        assert(nr[below as int] == b + 1 + (j - 1));
        assert(nr[x] == b + 1 + j);
    } else {
        assert forall|j: nat| j <= last implies #[trigger] anc(par, u, j) != xv by {
            if j == 0 {
                assert(anc(par, u, 0) == u);
            }
        }
        assert(np[x] == par[x]);
        assert(nw[x] == wt[x]);
        let q = par[x];
        lemma_seq_max(rank, q as int);
        if t.contains(xv) {
            assert(t.contains(par[xv as int]));
        } else {
            assert(!(exists|j: nat| j < m && #[trigger] anc(par, u, j) == xv)) by {
                if exists|j: nat| j < m && #[trigger] anc(par, u, j) == xv {
                    let j = choose|j: nat| j < m && #[trigger] anc(par, u, j) == xv;
                    assert(j <= last);
                }
            }
            assert(nr[x] == rank[x] + b + m + 1);
            if t.contains(q) {
            } else if exists|j: nat| j < m && #[trigger] anc(par, u, j) == q {
                let j = choose|j: nat| j < m && #[trigger] anc(par, u, j) == q;
                assert(nr[q as int] == b + 1 + j);
            } else {
                assert(nr[q as int] == rank[q as int] + b + m + 1);
            }
        }
    }
}

/// One exchange: a spanning tree that agrees with Prim's tree on the first
/// `k` vertices to join becomes one that agrees on the first `k + 1`,
/// weighing no more.
#[verifier::spinoff_prover]
#[verifier::rlimit(50)]
proof fn lemma_exchange(
    rows: Rows,
    n: usize,
    order: Seq<usize>,
    tree: Seq<Option<Edge>>,
    par: Seq<usize>,
    wt: Seq<u64>,
    rank: Seq<nat>,
    k: int,
) -> (r: (Seq<usize>, Seq<u64>, Seq<nat>))
    requires
        prim_order(rows, n, order),
        prim_tree(rows, n, order, tree),
        symmetric(rows, n),
        is_spanning_tree(rows, n, par, wt, rank),
        forall|x: int| 1 <= x < n ==> wt[x] < u64::MAX,
        agrees(order, tree, par, wt, k),
        1 <= k < n,
    ensures
        is_spanning_tree(rows, n, r.0, r.1, r.2),
        forall|x: int| 1 <= x < n ==> r.1[x] < u64::MAX,
        agrees(order, tree, r.0, r.1, k + 1),
        total(r.1) <= total(wt),
{
    let (m, p, key) = lemma_exchange_setup(rows, n, order, tree, par, wt, rank, k);
    let t = order.take(k);
    let u = order[k];
    lemma_exchange_tree(rows, n, par, wt, rank, t, u, m, p, key);
    let np = rewired_par(par, u, p, (m - 1) as nat);
    let nw = rewired_wt(par, wt, u, key, (m - 1) as nat);
    let nr = rewired_rank(rank, par, t, u, m, n);
    lemma_agrees_step(n, order, tree, par, wt, np, nw, k, p, key);
    (np, nw, nr)
}

/// Agreement extends by the joining vertex when the trees match on the
/// vertices already joined and the joining vertex hangs from Prim's edge.
#[verifier::spinoff_prover]
#[verifier::rlimit(50)]
proof fn lemma_agrees_step(
    n: usize,
    order: Seq<usize>,
    tree: Seq<Option<Edge>>,
    par: Seq<usize>,
    wt: Seq<u64>,
    np: Seq<usize>,
    nw: Seq<u64>,
    k: int,
    p: usize,
    key: u64,
)
    requires
        0 <= k < order.len(),
        forall|j: int| 0 <= j < k ==> #[trigger] order[j] < n,
        agrees(order, tree, par, wt, k),
        tree[order[k] as int] == Some(Edge { from: crate::id::Id(p), to: crate::id::Id(order[k]), weight: key }),
        np[order[k] as int] == p,
        nw[order[k] as int] == key,
        forall|v: usize|
            v < n && order.take(k).contains(v) ==> np[v as int] == par[v as int] && nw[v as int] == wt[v as int],
    ensures
        agrees(order, tree, np, nw, k + 1),
{
    assert forall|j: int| 1 <= j < k + 1 implies (#[trigger] tree[order[j] as int] matches Some(e) && np[order[j] as int]
        == e.from.0 && nw[order[j] as int] == e.weight) by {
        if j < k {
            assert(order.take(k)[j] == order[j]);
            assert(order.take(k).contains(order[j]));
        }
    }
}

/// Repeated exchanges from step `k` on make the tree agree with Prim's tree
/// everywhere.
proof fn lemma_exchange_all(
    rows: Rows,
    n: usize,
    order: Seq<usize>,
    tree: Seq<Option<Edge>>,
    par: Seq<usize>,
    wt: Seq<u64>,
    rank: Seq<nat>,
    k: int,
) -> (r: (Seq<usize>, Seq<u64>, Seq<nat>))
    requires
        prim_order(rows, n, order),
        prim_tree(rows, n, order, tree),
        symmetric(rows, n),
        is_spanning_tree(rows, n, par, wt, rank),
        forall|x: int| 1 <= x < n ==> wt[x] < u64::MAX,
        agrees(order, tree, par, wt, k),
        1 <= k <= n,
    ensures
        is_spanning_tree(rows, n, r.0, r.1, r.2),
        agrees(order, tree, r.0, r.1, n as int),
        total(r.1) <= total(wt),
    decreases n - k,
{
    if k == n {
        (par, wt, rank)
    } else {
        let c = lemma_exchange(rows, n, order, tree, par, wt, rank, k);
        lemma_exchange_all(rows, n, order, tree, c.0, c.1, c.2, k + 1)
    }
}

/// Prim's tree is a minimum spanning tree: in a graph whose edges weigh the
/// same in both directions, if some spanning tree of the first `n`
/// vertices uses only edges lighter than `u64::MAX`, then every vertex but
/// the root joins Prim's tree through an edge, and Prim's tree weighs no
/// more than that spanning tree.
pub proof fn law_prim_minimum(
    rows: Rows,
    n: usize,
    order: Seq<usize>,
    tree: Seq<Option<Edge>>,
    par: Seq<usize>,
    wt: Seq<u64>,
    rank: Seq<nat>,
)
    requires
        n >= 1,
        prim_order(rows, n, order),
        prim_tree(rows, n, order, tree),
        symmetric(rows, n),
        is_spanning_tree(rows, n, par, wt, rank),
        forall|x: int| 1 <= x < n ==> wt[x] < u64::MAX,
    ensures
        forall|x: int| 1 <= x < n ==> #[trigger] tree[x] is Some,
        total(prim_weights(tree)) <= total(wt),
{
    law_prim_order_permutation(rows, n, order);
    let cur = lemma_exchange_all(rows, n, order, tree, par, wt, rank, 1);
    let pw = prim_weights(tree);
    assert forall|x: int| 1 <= x < n implies #[trigger] tree[x] is Some && cur.1[x] == pw[x] by {
        assert(order.contains(x as usize));
        let j = choose|j: int| 0 <= j < order.len() && order[j] == x as usize;
        assert(j != 0);
        assert(tree[order[j] as int] matches Some(e) && cur.1[order[j] as int] == e.weight);
    }
    assert(tree[0] is None) by {
        law_prim_tree_edges(rows, n, order, tree, 0);
    }
    assert(cur.1 =~= pw);
}

} // verus!
