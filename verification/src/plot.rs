//! The order in which the vertices of a spanning tree are drawn as a chain.
//!
//! The tree's edges become `(from, to)` pairs; the reverse of the first pair
//! that leaves vertex 0 is put in front. The chain starts with both ends of
//! the second pair (its `to`, then its `from`) and then repeatedly follows
//! the first pair whose `to` is the vertex last drawn, drawing that pair's
//! `from`, until it holds as many vertices as there are pairs.

use vstd::prelude::*;
use std::collections::BTreeSet;
use crate::graph::Edge;
use crate::id::Id;

verus! {

/// The `(from, to)` pairs of the edges of `tree`, in index order.
pub open spec fn edge_pairs(tree: Seq<Option<Edge>>) -> Seq<(Id, Id)>
    decreases tree.len(),
{
    if tree.len() == 0 {
        Seq::empty()
    } else {
        let rest = edge_pairs(tree.drop_last());
        match tree.last() {
            Some(e) => rest.push((e.from, e.to)),
            None => rest,
        }
    }
}

/// The first pair at or after position `i` that leaves vertex 0.
pub open spec fn first_from_root(pairs: Seq<(Id, Id)>, i: int) -> Option<(Id, Id)>
    decreases pairs.len() - i,
{
    if i < 0 || i >= pairs.len() {
        None
    } else if pairs[i].0 == Id(0) {
        Some(pairs[i])
    } else {
        first_from_root(pairs, i + 1)
    }
}

/// The first pair at or after position `i` that leads to `to`.
pub open spec fn first_into(pairs: Seq<(Id, Id)>, to: Id, i: int) -> Option<(Id, Id)>
    decreases pairs.len() - i,
{
    if i < 0 || i >= pairs.len() {
        None
    } else if pairs[i].1 == to {
        Some(pairs[i])
    } else {
        first_into(pairs, to, i + 1)
    }
}

/// The pairs that the chain is drawn from.
pub open spec fn plot_pairs(tree: Seq<Option<Edge>>) -> Seq<(Id, Id)> {
    let ep = edge_pairs(tree);
    match first_from_root(ep, 0) {
        Some(p) => seq![(p.1, p.0)] + ep,
        None => ep,
    }
}

/// The next `steps` vertices of the chain after `idx`, when each of them is
/// found (as the `from` of the first pair into the vertex before it) and
/// is among the known vertices.
pub open spec fn walk(pairs: Seq<(Id, Id)>, known: Set<usize>, idx: Id, steps: nat) -> Option<Seq<Id>>
    decreases steps,
{
    if steps == 0 {
        Some(Seq::empty())
    } else {
        match first_into(pairs, idx, 0) {
            Some(p) => if known.contains(p.0.0) {
                match walk(pairs, known, p.0, (steps - 1) as nat) {
                    Some(rest) => Some(seq![p.0] + rest),
                    None => None,
                }
            } else {
                None
            },
            None => None,
        }
    }
}

/// The chain can be drawn: there are at least two pairs, both ends of the
/// second are known, and each further vertex is found and known.
pub open spec fn chain_drawable(tree: Seq<Option<Edge>>, known: Set<usize>) -> bool {
    let pairs = plot_pairs(tree);
    &&& pairs.len() >= 2
    &&& known.contains(pairs[1].1.0)
    &&& known.contains(pairs[1].0.0)
    &&& walk(pairs, known, pairs[1].0, (pairs.len() - 2) as nat) is Some
}

/// The drawn chain.
pub open spec fn plot_chain(tree: Seq<Option<Edge>>, known: Set<usize>) -> Seq<Id> {
    let pairs = plot_pairs(tree);
    seq![pairs[1].1, pairs[1].0] + walk(pairs, known, pairs[1].0, (pairs.len() - 2) as nat).unwrap()
}

/// The vertices of the spanning tree `tree` in the order in which they are
/// drawn as a chain; `known` holds the vertices that can be drawn. `None`
/// when the chain cannot be drawn.
#[verifier::spinoff_prover]
#[verifier::rlimit(50)]
pub fn mst_plot_chain(tree: &Vec<Option<Edge>>, known: &BTreeSet<usize>) -> (r: Option<Vec<Id>>)
    ensures
        r is Some <==> chain_drawable(tree@, known@),
        r matches Some(c) ==> c@ == plot_chain(tree@, known@),
{
    let mut pairs: Vec<(Id, Id)> = Vec::new();
    let mut t: usize = 0;
    while t < tree.len()
        invariant
            t <= tree.len(),
            pairs@ == edge_pairs(tree@.take(t as int)),
        decreases tree.len() - t,
    {
        assert(tree@.take(t + 1).drop_last() =~= tree@.take(t as int));
        if let Some(e) = tree[t] {
            pairs.push((e.from, e.to));
        }
        t += 1;
    }
    assert(tree@.take(tree.len() as int) =~= tree@);
    let ghost ep = pairs@;
    let mut zero_edge: Option<(Id, Id)> = None;
    let mut i: usize = 0;
    while i < pairs.len()
        invariant_except_break
            i <= pairs.len(),
            pairs@ == ep,
            zero_edge is None,
            first_from_root(ep, 0) == first_from_root(ep, i as int),
        ensures
            pairs@ == ep,
            zero_edge == first_from_root(ep, 0),
        decreases pairs.len() - i,
    {
        if pairs[i].0.0 == 0 {
            zero_edge = Some(pairs[i]);
            break;
        }
        i += 1;
    }
    if let Some(e) = zero_edge {
        pairs.insert(0, (e.1, e.0));
        assert(pairs@ =~= seq![(e.1, e.0)] + ep);
    }
    let ghost all = pairs@;
    if pairs.len() < 2 || !known.contains(&pairs[1].1.0) || !known.contains(&pairs[1].0.0) {
        return None;
    }
    let ghost total = (all.len() - 2) as nat;
    let mut mst_vertices: Vec<Id> = Vec::new();
    mst_vertices.insert(0, pairs[1].1);
    mst_vertices.insert(1, pairs[1].0);
    let mut idx = mst_vertices[1];
    let ghost mut rest: Seq<Id> = if walk(all, known@, idx, total) is Some {
        walk(all, known@, idx, total).unwrap()
    } else {
        Seq::empty()
    };
    while mst_vertices.len() <= pairs.len() - 1
        invariant
            pairs@ == all,
            all == plot_pairs(tree@),
            all.len() >= 2,
            known@.contains(all[1].1.0),
            known@.contains(all[1].0.0),
            2 <= mst_vertices.len() <= all.len(),
            walk(all, known@, all[1].0, total) is Some <==> walk(all, known@, idx, (all.len() - mst_vertices.len()) as nat) is Some,
            walk(all, known@, idx, (all.len() - mst_vertices.len()) as nat) is Some ==> walk(
                all,
                known@,
                idx,
                (all.len() - mst_vertices.len()) as nat,
            ) == Some(rest) && mst_vertices@ + rest == plot_chain(tree@, known@),
            total == all.len() - 2,
        decreases all.len() - mst_vertices.len(),
    {
        let mut from_tail_id: Option<(Id, Id)> = None;
        let mut j: usize = 0;
        while j < pairs.len()
            invariant_except_break
                j <= pairs.len(),
                pairs@ == all,
                from_tail_id is None,
                first_into(all, idx, 0) == first_into(all, idx, j as int),
            ensures
                pairs@ == all,
                from_tail_id == first_into(all, idx, 0),
            decreases pairs.len() - j,
        {
            if pairs[j].1 == idx {
                from_tail_id = Some(pairs[j]);
                break;
            }
            j += 1;
        }
        match from_tail_id {
            Some(p) => {
                if known.contains(&p.0.0) {
                    let ghost old_rest = rest;
                    mst_vertices.push(p.0);
                    idx = p.0;
                    proof {
                        rest = old_rest.drop_first();
                        if walk(all, known@, idx, (all.len() - mst_vertices.len()) as nat) is Some {
                            assert(mst_vertices@ + rest =~= plot_chain(tree@, known@));
                        }
                    }
                } else {
                    return None;
                }
            },
            None => {
                return None;
            },
        }
    }
    Some(mst_vertices)
}

} // verus!
