//! An indexed d-ary priority queue over the keys `a`.
//!
//! Positions `1..=n` of `pq` hold item indices; `qp` maps an item index back
//! to the position it was inserted at; `a` holds the keys that the queue
//! compares. The contracts below state exactly what each operation does to
//! these arrays, including on inputs where the sift loops behave
//! unconventionally (a child scan that stops as soon as a sibling lies inside
//! the heap, a parent computed with `/ 2` but swapped with `/ d`).

use vstd::prelude::*;
use crate::order::keys_ordered;
use vstd::std_specs::cmp::PartialOrdIs;
use vstd::std_specs::cmp::PartialOrdSpec;

verus! {

/// The mathematical state of a [`PQi`].
pub struct PQiState<T> {
    pub d: usize,
    pub n: usize,
    pub pq: Seq<usize>,
    pub qp: Seq<usize>,
    pub a: Seq<T>,
}

impl<T> PQiState<T> {
    /// The same state with `pq` replaced.
    pub open spec fn with_pq(self, pq: Seq<usize>) -> PQiState<T> {
        PQiState { pq, ..self }
    }
}

/// `s` with the entries at `i` and `j` exchanged.
pub open spec fn swap_at(s: Seq<usize>, i: int, j: int) -> Seq<usize> {
    s.update(i, s[j]).update(j, s[i])
}

/// Position `p` of `pq` exists and names a key of `a`.
pub open spec fn readable(pq: Seq<usize>, a_len: nat, p: int) -> bool {
    0 <= p < pq.len() && pq[p] < a_len
}

/// The position that `fix_up` compares with position `k`.
pub open spec fn up_compare(k: int, d: int) -> int {
    (k + d - 2) / 2
}

/// The position that `fix_up` exchanges with position `k`.
pub open spec fn up_exchange(k: int, d: int) -> int {
    (k + d - 2) / d
}

/// Runs the sift-up loop from position `k` for at most `fuel` exchanges.
/// `Some(pq)` is the final array when the loop stops within that many
/// exchanges without reading outside `pq` or `a`, overflowing or dividing by
/// zero; `None` otherwise.
pub open spec fn fix_up_run<T: PartialOrd>(a: Seq<T>, d: usize, pq: Seq<usize>, k: int, fuel: nat) -> Option<Seq<usize>>
    decreases fuel,
{
    if k <= 1 {
        Some(pq)
    } else if k + d > usize::MAX || !readable(pq, a.len(), up_compare(k, d as int)) || !readable(pq, a.len(), k) {
        None
    } else if !a[pq[up_compare(k, d as int)] as int].is_gt(&a[pq[k] as int]) {
        Some(pq)
    } else if d == 0 || fuel == 0 {
        None
    } else {
        fix_up_run(a, d, swap_at(pq, k, up_exchange(k, d as int)), up_compare(k, d as int), (fuel - 1) as nat)
    }
}

/// The sift-up loop from `k` stops, and never reads out of bounds, overflows
/// or divides by zero.
pub open spec fn fix_up_terminates<T: PartialOrd>(a: Seq<T>, d: usize, pq: Seq<usize>, k: int) -> bool {
    exists|f: nat| #[trigger] fix_up_run(a, d, pq, k, f) is Some
}

/// The array that the sift-up loop from `k` leaves.
pub open spec fn fix_up_result<T: PartialOrd>(a: Seq<T>, d: usize, pq: Seq<usize>, k: int) -> Seq<usize> {
    fix_up_run(a, d, pq, k, choose|f: nat| #[trigger] fix_up_run(a, d, pq, k, f) is Some).unwrap()
}

/// From position `j` on, the scan over `i .. end` moves `j` to `i` whenever
/// the key at `j` is greater than the key at `i`.
pub open spec fn scan_min<T: PartialOrd>(a: Seq<T>, pq: Seq<usize>, j: int, i: int, end: int) -> int
    decreases end - i,
{
    if i >= end {
        j
    } else {
        scan_min(a, pq, if a[pq[j] as int].is_gt(&a[pq[i] as int]) { i } else { j }, i + 1, end)
    }
}

/// The first child position of position `k`.
pub open spec fn first_child(d: int, k: int) -> int {
    d * (k - 1) + 2
}

/// The position that `fix_down` picks among the children starting at `j0`:
/// the scan stops at once when the first sibling lies inside the heap
/// (`<= n`), and otherwise runs over all `d - 1` siblings.
pub open spec fn down_child<T: PartialOrd>(a: Seq<T>, pq: Seq<usize>, d: int, n: int, j0: int) -> int {
    if j0 + 1 <= n {
        j0
    } else {
        scan_min(a, pq, j0, j0 + 1, j0 + d)
    }
}

/// One round of the sift-down loop at position `k` reads only inside `pq`
/// and `a`, and its arithmetic does not overflow.
pub open spec fn down_round_safe<T>(a: Seq<T>, pq: Seq<usize>, d: usize, n: usize, k: int) -> bool {
    let j0 = first_child(d as int, k);
    &&& k >= 1
    &&& j0 + 1 <= usize::MAX
    &&& j0 + d <= usize::MAX
    &&& readable(pq, a.len(), k)
    &&& readable(pq, a.len(), j0)
    &&& (j0 + 1 > n ==> forall|p: int| j0 < p < j0 + d ==> readable(pq, a.len(), p))
}

/// Runs the sift-down loop from position `k` (heap size `n`) for at most
/// `fuel` further rounds after the first; `Some(pq)` is the final array when
/// it stops within them without reading out of bounds or overflowing.
pub open spec fn fix_down_run<T: PartialOrd>(a: Seq<T>, d: usize, n: usize, pq: Seq<usize>, k: int, fuel: nat) -> Option<Seq<usize>>
    decreases fuel,
{
    if !down_round_safe(a, pq, d, n, k) {
        None
    } else {
        let j = down_child(a, pq, d as int, n as int, first_child(d as int, k));
        if a[pq[k] as int].is_le(&a[pq[j] as int]) {
            Some(pq)
        } else if j > n {
            Some(swap_at(pq, k, j))
        } else if fuel == 0 {
            None
        } else {
            fix_down_run(a, d, n, swap_at(pq, k, j), j, (fuel - 1) as nat)
        }
    }
}

/// The sift-down loop from `k` stops, and never reads out of bounds or
/// overflows.
pub open spec fn fix_down_terminates<T: PartialOrd>(a: Seq<T>, d: usize, n: usize, pq: Seq<usize>, k: int) -> bool {
    exists|f: nat| #[trigger] fix_down_run(a, d, n, pq, k, f) is Some
}

/// The array that the sift-down loop from `k` leaves.
pub open spec fn fix_down_result<T: PartialOrd>(a: Seq<T>, d: usize, n: usize, pq: Seq<usize>, k: int) -> Seq<usize> {
    fix_down_run(a, d, n, pq, k, choose|f: nat| #[trigger] fix_down_run(a, d, n, pq, k, f) is Some).unwrap()
}

/// The scan ends at `j` or at one of the positions it visits.
proof fn lemma_scan_min_range<T: PartialOrd>(a: Seq<T>, pq: Seq<usize>, j: int, i: int, end: int)
    ensures
        scan_min(a, pq, j, i, end) == j || i <= scan_min(a, pq, j, i, end) < end,
    decreases end - i,
{
    if i < end {
        let j2 = if a[pq[j] as int].is_gt(&a[pq[i] as int]) { i } else { j };
        lemma_scan_min_range(a, pq, j2, i + 1, end);
    }
}

/// The sift-up loop only exchanges entries, so the length stays.
proof fn lemma_fix_up_len<T: PartialOrd>(a: Seq<T>, d: usize, pq: Seq<usize>, k: int, fuel: nat)
    requires
        fix_up_run(a, d, pq, k, fuel) is Some,
    ensures
        fix_up_run(a, d, pq, k, fuel).unwrap().len() == pq.len(),
    decreases fuel,
{
    if k > 1 && k + d <= usize::MAX && readable(pq, a.len(), up_compare(k, d as int)) && readable(pq, a.len(), k)
        && a[pq[up_compare(k, d as int)] as int].is_gt(&a[pq[k] as int]) && fuel > 0 && d != 0 {
        lemma_up_exchange_below(k, d as int);
        lemma_fix_up_len(a, d, swap_at(pq, k, up_exchange(k, d as int)), up_compare(k, d as int), (fuel - 1) as nat);
    }
}

/// The sift-down loop only exchanges entries, so the length stays.
proof fn lemma_fix_down_len<T: PartialOrd>(a: Seq<T>, d: usize, n: usize, pq: Seq<usize>, k: int, fuel: nat)
    requires
        fix_down_run(a, d, n, pq, k, fuel) is Some,
    ensures
        fix_down_run(a, d, n, pq, k, fuel).unwrap().len() == pq.len(),
    decreases fuel,
{
    let j = down_child(a, pq, d as int, n as int, first_child(d as int, k));
    let j0 = first_child(d as int, k);
    lemma_scan_min_range(a, pq, j0, j0 + 1, j0 + d);
    if down_round_safe(a, pq, d, n, k) {
        assert(readable(pq, a.len(), j));
    }
    if down_round_safe(a, pq, d, n, k) && !a[pq[k] as int].is_le(&a[pq[j] as int]) && j <= n && fuel > 0 {
        lemma_fix_down_len(a, d, n, swap_at(pq, k, j), j, (fuel - 1) as nat);
    }
}

/// With arity at least 1 every sift-down round moves to a later position,
/// so a sift-down that stops at all stops within `g` further rounds for any
/// `g` that reaches past the last position.
proof fn lemma_fix_down_enough_fuel<T: PartialOrd>(a: Seq<T>, d: usize, n: usize, pq: Seq<usize>, k: int, f: nat, g: nat)
    requires
        d >= 1,
        fix_down_run(a, d, n, pq, k, f) is Some,
        k + g + 1 >= pq.len(),
    ensures
        fix_down_run(a, d, n, pq, k, g) is Some,
    decreases f,
{
    let j0 = first_child(d as int, k);
    let j = down_child(a, pq, d as int, n as int, j0);
    lemma_scan_min_range(a, pq, j0, j0 + 1, j0 + d);
    if down_round_safe(a, pq, d, n, k) && !a[pq[k] as int].is_le(&a[pq[j] as int]) && j <= n {
        assert(readable(pq, a.len(), j));
        assert(j0 >= k + 1) by (nonlinear_arith)
            requires
                j0 == d * (k - 1) + 2,
                d >= 1,
                k >= 1,
        ;
        lemma_swap_multiset(pq, k, j);
        lemma_fix_down_enough_fuel(a, d, n, swap_at(pq, k, j), j, (f - 1) as nat, (g - 1) as nat);
    }
}

/// With arity 1 or 2 every sift-up round moves to an earlier position, so a
/// sift-up from `k` that stops at all stops within any `g` exchanges that
/// reach `k` or the number of positions.
proof fn lemma_fix_up_enough_fuel<T: PartialOrd>(a: Seq<T>, d: usize, pq: Seq<usize>, k: int, f: nat, g: nat)
    requires
        1 <= d <= 2,
        fix_up_run(a, d, pq, k, f) is Some,
        g >= k || g >= pq.len(),
    ensures
        fix_up_run(a, d, pq, k, g) is Some,
    decreases f,
{
    if k > 1 && k + d <= usize::MAX && readable(pq, a.len(), up_compare(k, d as int)) && readable(pq, a.len(), k)
        && a[pq[up_compare(k, d as int)] as int].is_gt(&a[pq[k] as int]) {
        lemma_up_exchange_below(k, d as int);
        lemma_fix_up_enough_fuel(a, d, swap_at(pq, k, up_exchange(k, d as int)), up_compare(k, d as int), (f - 1) as nat, (g - 1) as nat);
    }
}

/// The position exchanged by the sift-up loop lies at or below `k`.
proof fn lemma_up_exchange_below(k: int, d: int)
    requires
        k >= 2,
        d >= 1,
    ensures
        0 <= up_exchange(k, d) <= k,
{
    assert((k + d - 2) / d <= k) by (nonlinear_arith)
        requires
            k >= 2,
            d >= 1,
    ;
    assert((k + d - 2) / d >= 0) by (nonlinear_arith)
        requires
            k >= 2,
            d >= 1,
    ;
}

impl<T: PartialOrd> PQiState<T> {
    /// `getmin` can run on this state without panicking or looping forever.
    pub open spec fn can_take_min(self) -> bool {
        &&& self.n >= 1
        &&& self.n < self.pq.len()
        &&& 1 < self.pq.len()
        &&& fix_down_terminates(self.a, self.d, (self.n - 1) as usize, swap_at(self.pq, 1, self.n as int), 1)
    }

    /// The state after `getmin`: the last position is exchanged with the
    /// first, the first is sifted down over the first `n - 1` positions, and
    /// the size drops by one.
    pub open spec fn min_taken(self) -> PQiState<T> {
        PQiState {
            n: (self.n - 1) as usize,
            pq: fix_down_result(self.a, self.d, (self.n - 1) as usize, swap_at(self.pq, 1, self.n as int), 1),
            ..self
        }
    }

    /// `insert(v)` can run on this state without panicking or looping
    /// forever.
    pub open spec fn can_insert(self, v: usize) -> bool {
        &&& self.n < usize::MAX
        &&& self.n + 1 < self.pq.len()
        &&& v < self.qp.len()
        &&& fix_up_terminates(self.a, self.d, self.pq.update(self.n + 1, v), self.n + 1)
    }

    /// The state after `insert(v)`: the size grows by one, item `v` goes to
    /// the new last position, which `qp[v]` records, and is sifted up.
    pub open spec fn inserted(self, v: usize) -> PQiState<T> {
        PQiState {
            n: (self.n + 1) as usize,
            pq: fix_up_result(self.a, self.d, self.pq.update(self.n + 1, v), self.n + 1),
            qp: self.qp.update(v as int, (self.n + 1) as usize),
            ..self
        }
    }

    /// `lower(k)` can run on this state without panicking or looping
    /// forever.
    pub open spec fn can_lower(self, k: usize) -> bool {
        &&& k < self.qp.len()
        &&& fix_up_terminates(self.a, self.d, self.pq, self.qp[k as int] as int)
    }

    /// The state after `lower(k)`: the position recorded for item `k` is
    /// sifted up.
    pub open spec fn lowered(self, k: usize) -> PQiState<T> {
        self.with_pq(fix_up_result(self.a, self.d, self.pq, self.qp[k as int] as int))
    }
}

/// Exchanging two entries keeps the multiset of entries.
proof fn lemma_swap_multiset(s: Seq<usize>, i: int, j: int)
    requires
        0 <= i < s.len(),
        0 <= j < s.len(),
    ensures
        swap_at(s, i, j).to_multiset() == s.to_multiset(),
        swap_at(s, i, j).len() == s.len(),
{
    broadcast use vstd::seq_lib::to_multiset_update;
    broadcast use vstd::seq_lib::to_multiset_contains;
    broadcast use vstd::multiset::group_multiset_properties;

    let s1 = s.update(i, s[j]);
    assert(s1.to_multiset() == s.to_multiset().insert(s[j]).remove(s[i]));
    assert(s1[j] == if i == j { s[j] } else { s[j] });
    assert(swap_at(s, i, j).to_multiset() == s1.to_multiset().insert(s[i]).remove(s1[j]));
    let m = s.to_multiset();
    assert(s.contains(s[i]));
    assert(m.count(s[i]) > 0);
    let m1 = m.insert(s[j]).remove(s[i]);
    let m2 = m1.insert(s[i]).remove(s[j]);
    assert forall|x: usize| m2.count(x) == m.count(x) by {
        assert(m1.count(x) == m.insert(s[j]).count(x) - if x == s[i] { 1int } else { 0int });
    }
    assert(m2 =~= m);
}

/// The sift-up loop only exchanges entries of `pq`: the items in the queue
/// array stay the same, only their positions change.
pub proof fn law_fix_up_permutes<T: PartialOrd>(a: Seq<T>, d: usize, pq: Seq<usize>, k: int)
    requires
        fix_up_terminates(a, d, pq, k),
    ensures
        fix_up_result(a, d, pq, k).to_multiset() == pq.to_multiset(),
        fix_up_result(a, d, pq, k).len() == pq.len(),
{
    let f = choose|f: nat| #[trigger] fix_up_run(a, d, pq, k, f) is Some;
    lemma_fix_up_run_permutes(a, d, pq, k, f);
}

proof fn lemma_fix_up_run_permutes<T: PartialOrd>(a: Seq<T>, d: usize, pq: Seq<usize>, k: int, fuel: nat)
    requires
        fix_up_run(a, d, pq, k, fuel) is Some,
    ensures
        fix_up_run(a, d, pq, k, fuel).unwrap().to_multiset() == pq.to_multiset(),
        fix_up_run(a, d, pq, k, fuel).unwrap().len() == pq.len(),
    decreases fuel,
{
    if k > 1 && k + d <= usize::MAX && readable(pq, a.len(), up_compare(k, d as int)) && readable(pq, a.len(), k)
        && a[pq[up_compare(k, d as int)] as int].is_gt(&a[pq[k] as int]) && fuel > 0 && d != 0 {
        lemma_up_exchange_below(k, d as int);
        lemma_swap_multiset(pq, k, up_exchange(k, d as int));
        lemma_fix_up_run_permutes(a, d, swap_at(pq, k, up_exchange(k, d as int)), up_compare(k, d as int), (fuel - 1) as nat);
    }
}

/// The sift-down loop only exchanges entries of `pq`: the items in the
/// queue array stay the same, only their positions change.
pub proof fn law_fix_down_permutes<T: PartialOrd>(a: Seq<T>, d: usize, n: usize, pq: Seq<usize>, k: int)
    requires
        fix_down_terminates(a, d, n, pq, k),
    ensures
        fix_down_result(a, d, n, pq, k).to_multiset() == pq.to_multiset(),
        fix_down_result(a, d, n, pq, k).len() == pq.len(),
{
    let f = choose|f: nat| #[trigger] fix_down_run(a, d, n, pq, k, f) is Some;
    lemma_fix_down_run_permutes(a, d, n, pq, k, f);
}

proof fn lemma_fix_down_run_permutes<T: PartialOrd>(a: Seq<T>, d: usize, n: usize, pq: Seq<usize>, k: int, fuel: nat)
    requires
        fix_down_run(a, d, n, pq, k, fuel) is Some,
    ensures
        fix_down_run(a, d, n, pq, k, fuel).unwrap().to_multiset() == pq.to_multiset(),
        fix_down_run(a, d, n, pq, k, fuel).unwrap().len() == pq.len(),
    decreases fuel,
{
    let j = down_child(a, pq, d as int, n as int, first_child(d as int, k));
    let j0 = first_child(d as int, k);
    lemma_scan_min_range(a, pq, j0, j0 + 1, j0 + d);
    if down_round_safe(a, pq, d, n, k) {
        assert(readable(pq, a.len(), j));
        if !a[pq[k] as int].is_le(&a[pq[j] as int]) {
            lemma_swap_multiset(pq, k, j);
            if j <= n && fuel > 0 {
                lemma_fix_down_run_permutes(a, d, n, swap_at(pq, k, j), j, (fuel - 1) as nat);
            }
        }
    }
}

/// The queue's size counts operations: an insertion followed by a
/// `getmin` leaves the size where it was.
pub proof fn law_insert_then_take_min_size<T: PartialOrd>(s: PQiState<T>, v: usize)
    requires
        s.can_insert(v),
    ensures
        s.inserted(v).n == s.n + 1,
        s.inserted(v).can_take_min() ==> s.inserted(v).min_taken().n == s.n,
{
}

/// No operation changes the keys or the arity, and the queue array only
/// ever holds what was put into it: `getmin` and `lower` rearrange its
/// entries, and `insert(v)` writes `v` at the new last position and
/// rearranges.
pub proof fn law_operations_keep_items<T: PartialOrd>(s: PQiState<T>, v: usize, k: usize)
    ensures
        s.can_take_min() ==> s.min_taken().pq.to_multiset() == s.pq.to_multiset() && s.min_taken().a == s.a
            && s.min_taken().d == s.d && s.min_taken().qp == s.qp,
        s.can_insert(v) ==> s.inserted(v).pq.to_multiset() == s.pq.update(s.n + 1, v).to_multiset()
            && s.inserted(v).a == s.a && s.inserted(v).d == s.d,
        s.can_lower(k) ==> s.lowered(k).pq.to_multiset() == s.pq.to_multiset() && s.lowered(k).a == s.a
            && s.lowered(k).d == s.d && s.lowered(k).qp == s.qp,
{
    if s.can_take_min() {
        let pq1 = swap_at(s.pq, 1, s.n as int);
        lemma_swap_multiset(s.pq, 1, s.n as int);
        law_fix_down_permutes(s.a, s.d, (s.n - 1) as usize, pq1, 1);
    }
    if s.can_insert(v) {
        law_fix_up_permutes(s.a, s.d, s.pq.update(s.n + 1, v), s.n + 1);
    }
    if s.can_lower(k) {
        law_fix_up_permutes(s.a, s.d, s.pq, s.qp[k as int] as int);
    }
}

/// `insert(v)` records in `qp[v]` the position at which it wrote `v`: the
/// new last position `n + 1`, which is the new size. No other entry of `qp`
/// changes.
pub proof fn law_insert_records_position<T: PartialOrd>(s: PQiState<T>, v: usize, u: usize)
    requires
        s.n < usize::MAX,
        s.n + 1 < s.pq.len(),
        v < s.qp.len(),
    ensures
        s.inserted(v).n == s.n + 1,
        s.inserted(v).qp[v as int] == s.n + 1,
        s.inserted(v).qp[v as int] == s.inserted(v).n,
        s.pq.update(s.n + 1, v)[s.inserted(v).qp[v as int] as int] == v,
        s.inserted(v).qp.len() == s.qp.len(),
        u != v && u < s.qp.len() ==> s.inserted(v).qp[u as int] == s.qp[u as int],
{
}

/// With arity 1 or 2 a sift-up from `k` only exchanges positions at or
/// below `k`: every later position keeps its entry.
proof fn lemma_fix_up_keeps_above<T: PartialOrd>(a: Seq<T>, d: usize, pq: Seq<usize>, k: int, f: nat, m: int)
    requires
        1 <= d <= 2,
        fix_up_run(a, d, pq, k, f) is Some,
        k < m < pq.len(),
    ensures
        fix_up_run(a, d, pq, k, f).unwrap()[m] == pq[m],
    decreases f,
{
    if k > 1 && k + d <= usize::MAX && readable(pq, a.len(), up_compare(k, d as int)) && readable(pq, a.len(), k)
        && a[pq[up_compare(k, d as int)] as int].is_gt(&a[pq[k] as int]) {
        lemma_up_exchange_below(k, d as int);
        let q = swap_at(pq, k, up_exchange(k, d as int));
        assert(q[m] == pq[m]);
        lemma_fix_up_keeps_above(a, d, q, up_compare(k, d as int), (f - 1) as nat, m);
    }
}

/// `lower(k)` sifts up from the position `p = qp[k]` recorded for item `k`,
/// with arity 1 or 2: when the key at the compared position above `p` is
/// greater than the key at `p`, position `p` ends up holding the entry of
/// the position it is exchanged with; otherwise nothing moves. The size,
/// `qp`, the keys and the arity stay.
pub proof fn law_lower_sifts_up<T: PartialOrd>(s: PQiState<T>, k: usize)
    requires
        1 <= s.d <= 2,
        s.can_lower(k),
    ensures
        s.lowered(k).n == s.n,
        s.lowered(k).qp == s.qp,
        s.lowered(k).a == s.a,
        s.lowered(k).d == s.d,
        s.lowered(k).pq.len() == s.pq.len(),
        ({
            let p = s.qp[k as int] as int;
            let c = up_compare(p, s.d as int);
            let x = up_exchange(p, s.d as int);
            if p > 1 && s.a[s.pq[c] as int].is_gt(&s.a[s.pq[p] as int]) {
                &&& x < p
                &&& s.lowered(k).pq[p] == s.pq[x]
            } else {
                s.lowered(k).pq == s.pq
            }
        }),
{
    let p = s.qp[k as int] as int;
    let f = choose|f: nat| #[trigger] fix_up_run(s.a, s.d, s.pq, p, f) is Some;
    assert(fix_up_run(s.a, s.d, s.pq, p, f) is Some);
    lemma_fix_up_len(s.a, s.d, s.pq, p, f);
    if p > 1 && s.a[s.pq[up_compare(p, s.d as int)] as int].is_gt(&s.a[s.pq[p] as int]) {
        let c = up_compare(p, s.d as int);
        let x = up_exchange(p, s.d as int);
        assert(readable(s.pq, s.a.len(), p));
        assert(x < p) by (nonlinear_arith)
            requires
                x == (p + s.d - 2) / (s.d as int),
                1 <= s.d <= 2,
                p > 1,
        ;
        lemma_up_exchange_below(p, s.d as int);
        let q = swap_at(s.pq, p, x);
        assert(c < p);
        lemma_fix_up_keeps_above(s.a, s.d, q, c, (f - 1) as nat, p);
    }
}

/// The keys order like a total preorder: "not greater" is transitive, and
/// of two keys at most one is greater than the other.
pub open spec fn keys_preordered<T: PartialOrd>() -> bool {
    &&& forall|x: T, y: T, z: T| #![trigger x.partial_cmp_spec(&y), y.partial_cmp_spec(&z)] !x.is_gt(&y) && !y.is_gt(&z) ==> !x.is_gt(&z)
    &&& forall|x: T, y: T| #![trigger x.partial_cmp_spec(&y)] x.is_gt(&y) ==> !y.is_gt(&x)
}

/// The key at position `i` is not below the key at its parent `i / 2`.
pub open spec fn parent_ok<T: PartialOrd>(a: Seq<T>, pq: Seq<usize>, i: int) -> bool {
    !a[pq[i / 2] as int].is_gt(&a[pq[i] as int])
}

/// Positions `1 ..= n` form a binary heap: no key is below its parent's.
pub open spec fn heap_ordered<T: PartialOrd>(a: Seq<T>, pq: Seq<usize>, n: int) -> bool {
    forall|i: int| 2 <= i <= n ==> #[trigger] parent_ok(a, pq, i)
}

/// Positions `1 ..= n` form a binary heap except possibly between `k` and
/// its parent, and the parent of `k` is not above `k`'s children.
spec fn heap_but<T: PartialOrd>(a: Seq<T>, pq: Seq<usize>, n: int, k: int) -> bool {
    &&& forall|i: int| 2 <= i <= n && i != k ==> #[trigger] parent_ok(a, pq, i)
    &&& forall|c: int| 2 <= c <= n && c / 2 == k && k >= 2 ==> !a[pq[k / 2] as int].is_gt(&a[#[trigger] pq[c] as int])
}

#[verifier::spinoff_prover]
#[verifier::rlimit(50)]
proof fn lemma_sift_up_heap<T: PartialOrd>(a: Seq<T>, pq: Seq<usize>, n: int, k: int, fuel: nat)
    requires
        keys_preordered::<T>(),
        fix_up_run(a, 2, pq, k, fuel) is Some,
        heap_but(a, pq, n, k),
        1 <= k <= n,
        n < pq.len(),
    ensures
        heap_ordered(a, fix_up_run(a, 2, pq, k, fuel).unwrap(), n),
    decreases fuel,
{
    assert(up_compare(k, 2) == k / 2);
    if k <= 1 || !a[pq[k / 2] as int].is_gt(&a[pq[k] as int]) {
        assert forall|i: int| 2 <= i <= n implies #[trigger] parent_ok(a, pq, i) by {
            if i == k {
                assert(parent_ok(a, pq, k));
            }
        }
    } else {
        let p = k / 2;
        assert(up_exchange(k, 2) == p);
        let q = swap_at(pq, k, p);
        let x = a[pq[k] as int];
        let y = a[pq[p] as int];
        assert(x.is_gt(&y) ==> !y.is_gt(&x));
        assert(!x.is_gt(&y));
        assert(q[p] == pq[k]);
        assert(q[k] == pq[p]);
        assert forall|i: int| 2 <= i <= n && i != p implies #[trigger] parent_ok(a, q, i) by {
            if i == k {
            } else if i / 2 == p {
                assert(q[i] == pq[i]);
                assert(parent_ok(a, pq, i));
                let sv = a[pq[i] as int];
                assert(!x.is_gt(&y) && !y.is_gt(&sv) ==> !x.is_gt(&sv));
            } else if i / 2 == k {
                assert(q[i] == pq[i]);
            } else {
                assert(i != k && i != p);
                assert(q[i] == pq[i]);
                assert(i / 2 != k && i / 2 != p);
                assert(q[i / 2] == pq[i / 2]);
                assert(parent_ok(a, pq, i));
            }
        }
        assert forall|c: int| 2 <= c <= n && c / 2 == p && p >= 2 implies !a[q[p / 2] as int].is_gt(&a[#[trigger] q[c] as int]) by {
            let g = p / 2;
            assert(g != k && g != p);
            assert(q[g] == pq[g]);
            assert(parent_ok(a, pq, p));
            let z = a[pq[g] as int];
            if c == k {
            } else {
                assert(q[c] == pq[c]);
                assert(parent_ok(a, pq, c));
                let sv = a[pq[c] as int];
                assert(!z.is_gt(&y) && !y.is_gt(&sv) ==> !z.is_gt(&sv));
            }
        }
        lemma_sift_up_heap(a, q, n, p, (fuel - 1) as nat);
    }
}

/// With arity 2 and keys that order like a total preorder, an insertion
/// keeps the queue a binary heap.
pub proof fn law_insert_keeps_heap<T: PartialOrd>(s: PQiState<T>, v: usize)
    requires
        keys_preordered::<T>(),
        s.d == 2,
        s.can_insert(v),
        heap_ordered(s.a, s.pq, s.n as int),
    ensures
        heap_ordered(s.a, s.inserted(v).pq, s.n + 1),
{
    let n = s.n + 1;
    let pq = s.pq.update(n, v);
    assert forall|i: int| 2 <= i <= n && i != n implies #[trigger] parent_ok(s.a, pq, i) by {
        assert(parent_ok(s.a, s.pq, i));
        assert(pq[i] == s.pq[i]);
        assert(pq[i / 2] == s.pq[i / 2]);
    }
    let f = choose|f: nat| #[trigger] fix_up_run(s.a, s.d, pq, n, f) is Some;
    lemma_sift_up_heap(s.a, pq, n, n, f);
}

/// A copy of `v`.
fn copy_positions(v: &Vec<usize>) -> (r: Vec<usize>)
    ensures
        r@ == v@,
{
    let mut r: Vec<usize> = Vec::new();
    let mut i: usize = 0;
    while i < v.len()
        invariant
            i <= v.len(),
            r@ == v@.take(i as int),
        decreases v.len() - i,
    {
        r.push(v[i]);
        i += 1;
        assert(r@ =~= v@.take(i as int));
    }
    assert(v@.take(v.len() as int) =~= v@);
    r
}

/// An indexed priority queue of arity `d` over the keys `a`.
pub struct PQi<T: Ord + Copy> {
    d: usize,
    n: usize,
    pq: Vec<usize>,
    qp: Vec<usize>,
    a: Vec<T>,
}

impl<T: Ord + Copy> View for PQi<T> {
    type V = PQiState<T>;

    closed spec fn view(&self) -> PQiState<T> {
        PQiState { d: self.d, n: self.n, pq: self.pq@, qp: self.qp@, a: self.a@ }
    }
}

impl<T: Ord + Copy> PQi<T> {
    /// Whether the queue holds no position.
    pub fn empty(&self) -> (r: bool)
        ensures
            r == (self@.n == 0),
    {
        self.n == 0
    }

    fn exch(&mut self, i: usize, j: usize)
        requires
            i < old(self)@.pq.len(),
            j < old(self)@.pq.len(),
        ensures
            final(self)@ == old(self)@.with_pq(swap_at(old(self)@.pq, i as int, j as int)),
    {
        let pi = self.pq[i];
        let pj = self.pq[j];
        self.pq.set(i, pj);
        self.pq.set(j, pi);
        assert(self.pq@ =~= swap_at(old(self)@.pq, i as int, j as int));
    }

    /// The child position at which the sift-down round whose first child is
    /// `j0` stops its scan.
    fn down_child_at(&self, pq: &Vec<usize>, j0: usize, n: usize) -> (j: usize)
        requires
            keys_ordered::<T>(),
            j0 + 1 <= usize::MAX,
            j0 + self@.d <= usize::MAX,
            readable(pq@, self@.a.len(), j0 as int),
            j0 + 1 > n ==> forall|p: int| j0 < p < j0 + self@.d ==> readable(pq@, self@.a.len(), p),
        ensures
            j == down_child(self@.a, pq@, self@.d as int, n as int, j0 as int),
    {
        let mut j = j0;
        let end = j0 + self.d;
        let mut i = j0 + 1;
        while i < end
            invariant_except_break
                j0 + 1 <= i,
                i <= end || i == j0 + 1,
                end == j0 + self@.d,
                keys_ordered::<T>(),
                readable(pq@, self@.a.len(), j0 as int),
                j0 + 1 > n ==> forall|p: int| j0 < p < j0 + self@.d ==> readable(pq@, self@.a.len(), p),
                j0 + 1 <= n ==> i == j0 + 1 && j == j0,
                j0 + 1 > n ==> j == j0 || (j0 < j < i),
                j0 + 1 > n ==> scan_min(self@.a, pq@, j as int, i as int, end as int)
                    == scan_min(self@.a, pq@, j0 as int, j0 + 1, end as int),
            ensures
                j == down_child(self@.a, pq@, self@.d as int, n as int, j0 as int),
            decreases end - i,
        {
            if i <= n {
                break;
            }
            assert(readable(pq@, self@.a.len(), i as int));
            assert(readable(pq@, self@.a.len(), j as int));
            if self.a[pq[j]] > self.a[pq[i]] {
                j = i;
            }
            i += 1;
        }
        j
    }

#[verifier::spinoff_prover]
#[verifier::rlimit(50)]
    fn fix_down(&mut self, k: usize, n: usize)
        requires
            keys_ordered::<T>(),
            fix_down_terminates(old(self)@.a, old(self)@.d, n, old(self)@.pq, k as int),
        ensures
            final(self)@ == old(self)@.with_pq(
                fix_down_result(old(self)@.a, old(self)@.d, n, old(self)@.pq, k as int),
            ),
    {
        let ghost a = self@.a;
        let ghost d = self@.d;
        let ghost fuel = choose|f: nat| #[trigger] fix_down_run(a, d, n, old(self)@.pq, k as int, f) is Some;
        let ghost result = fix_down_result(a, d, n, old(self)@.pq, k as int);
        let ghost mut left: nat = fuel;
        let mut k = k;
        let mut j = 0_usize;
        while j <= n
            invariant_except_break
                self@ == old(self)@.with_pq(self@.pq),
                a == self@.a,
                d == self@.d,
                keys_ordered::<T>(),
                j <= n ==> fix_down_run(a, d, n, self@.pq, k as int, left) == Some(result),
                j > n ==> self@.pq == result,
            ensures
                self@ == old(self)@.with_pq(result),
            decreases if j <= n { left + 1 } else { 0 },
        {
            assert(down_round_safe(a, self@.pq, d, n, k as int));
            j = self.d * (k - 1) + 2;
            proof {
                lemma_scan_min_range(a, self@.pq, j as int, j + 1, j + d);
            }
            j = self.down_child_at(&self.pq, j, n);
            assert(readable(self@.pq, self@.a.len(), k as int));
            assert(readable(self@.pq, self@.a.len(), j as int));
            if self.a[self.pq[k]] <= self.a[self.pq[j]] {
                break;
            }
            self.exch(k, j);
            k = j;
            proof {
                if j <= n {
                    left = (left - 1) as nat;
                }
            }
        }
    }

    fn fix_up(&mut self, k: usize)
        requires
            keys_ordered::<T>(),
            fix_up_terminates(old(self)@.a, old(self)@.d, old(self)@.pq, k as int),
        ensures
            final(self)@ == old(self)@.with_pq(fix_up_result(old(self)@.a, old(self)@.d, old(self)@.pq, k as int)),
    {
        let ghost a = self@.a;
        let ghost d = self@.d;
        let ghost fuel = choose|f: nat| #[trigger] fix_up_run(a, d, old(self)@.pq, k as int, f) is Some;
        let ghost result = fix_up_result(a, d, old(self)@.pq, k as int);
        let ghost mut left: nat = fuel;
        let mut k = k;
        while k > 1 && self.a[self.pq[(k + self.d - 2) / 2]] > self.a[self.pq[k]]
            invariant
                self@ == old(self)@.with_pq(self@.pq),
                a == self@.a,
                d == self@.d,
                keys_ordered::<T>(),
                fix_up_run(a, d, self@.pq, k as int, left) == Some(result),
            decreases left,
        {
            proof {
                lemma_up_exchange_below(k as int, d as int);
            }
            self.exch(k, (k + self.d - 2) / self.d);
            k = (k + self.d - 2) / 2;
            proof {
                left = (left - 1) as nat;
            }
        }
    }

    /// Moves the last position to the front, sifts it down over the first
    /// `n - 1` positions, shrinks the queue by one and returns the item now at
    /// position `n - 1`.
    pub fn getmin(&mut self) -> (r: usize)
        requires
            keys_ordered::<T>(),
            old(self)@.can_take_min(),
        ensures
            final(self)@ == old(self)@.min_taken(),
            r == final(self)@.pq[final(self)@.n as int],
    {
        let n = self.n;
        self.exch(1, n);
        self.fix_down(1_usize, n - 1);
        proof {
            let pq1 = swap_at(old(self)@.pq, 1, n as int);
            lemma_fix_down_len(self@.a, self@.d, (n - 1) as usize, pq1, 1,
                choose|f: nat| #[trigger] fix_down_run(self@.a, self@.d, (n - 1) as usize, pq1, 1, f) is Some);
        }
        self.n -= 1;
        self.pq[self.n]
    }

    /// Grows the queue by one position, places item `v` there, records that
    /// position in `qp[v]` and sifts it up.
    pub fn insert(&mut self, v: usize)
        requires
            keys_ordered::<T>(),
            old(self)@.can_insert(v),
        ensures
            final(self)@ == old(self)@.inserted(v),
            final(self)@.n == old(self)@.n + 1,
            final(self)@.qp[v as int] == final(self)@.n,
    {
        self.n += 1;
        let n = self.n;
        self.pq.set(n, v);
        self.qp.set(v, n);
        self.fix_up(n);
    }

    /// Sifts up the position recorded for item `k`.
    pub fn lower(&mut self, k: usize)
        requires
            keys_ordered::<T>(),
            old(self)@.can_lower(k),
        ensures
            final(self)@ == old(self)@.lowered(k),
    {
        let p = self.qp[k];
        self.fix_up(p);
    }

    /// Whether one round of the sift-down loop at position `k` (heap size
    /// `n`) over the array `pq` reads only inside `pq` and `a` without
    /// overflowing.
    fn down_round_is_safe(&self, pq: &Vec<usize>, n: usize, k: usize) -> (r: bool)
        ensures
            r == down_round_safe(self@.a, pq@, self@.d, n, k as int),
    {
        if k < 1 {
            return false;
        }
        let m = match self.d.checked_mul(k - 1) {
            Some(m) => m,
            None => {
                return false;
            },
        };
        if m > usize::MAX - 3 {
            return false;
        }
        let j0 = m + 2;
        if j0 > usize::MAX - self.d {
            return false;
        }
        if !(k < pq.len() && pq[k] < self.a.len()) {
            return false;
        }
        if !(j0 < pq.len() && pq[j0] < self.a.len()) {
            return false;
        }
        if j0 + 1 > n {
            let end = j0 + self.d;
            let mut p = j0 + 1;
            while p < end
                invariant
                    j0 + 1 <= p,
                    j0 + 1 > n,
                    j0 == first_child(self@.d as int, k as int),
                    end == j0 + self@.d,
                    forall|q: int| j0 < q < p ==> readable(pq@, self@.a.len(), q),
                decreases end - p,
            {
                if !(p < pq.len() && pq[p] < self.a.len()) {
                    assert(!readable(pq@, self@.a.len(), p as int));
                    return false;
                }
                p += 1;
            }
        }
        true
    }

    /// Whether the sift-down loop from position `k` (heap size `n`) over the
    /// array `pq` stops within `fuel` further rounds without reading out of
    /// bounds or overflowing.
    fn down_run_finishes(&self, start: &Vec<usize>, n: usize, k0: usize, fuel0: usize) -> (r: bool)
        requires
            keys_ordered::<T>(),
        ensures
            r == fix_down_run(self@.a, self@.d, n, start@, k0 as int, fuel0 as nat) is Some,
    {
        let mut pq = copy_positions(start);
        let mut k = k0;
        let mut fuel = fuel0;
        loop
            invariant
                keys_ordered::<T>(),
                fix_down_run(self@.a, self@.d, n, pq@, k as int, fuel as nat) == fix_down_run(
                    self@.a,
                    self@.d,
                    n,
                    start@,
                    k0 as int,
                    fuel0 as nat,
                ),
            decreases fuel,
        {
            if !self.down_round_is_safe(&pq, n, k) {
                return false;
            }
            let j0 = self.d * (k - 1) + 2;
            proof {
                lemma_scan_min_range(self@.a, pq@, j0 as int, j0 + 1, j0 + self@.d);
            }
            let j = self.down_child_at(&pq, j0, n);
            assert(readable(pq@, self@.a.len(), j as int));
            if self.a[pq[k]] <= self.a[pq[j]] {
                return true;
            }
            if j > n {
                return true;
            }
            if fuel == 0 {
                return false;
            }
            let ghost before = pq@;
            let pk = pq[k];
            let pj = pq[j];
            pq.set(k, pj);
            pq.set(j, pk);
            assert(pq@ =~= swap_at(before, k as int, j as int));
            k = j;
            fuel -= 1;
        }
    }

    /// Whether the sift-up loop from position `k0` over the array `start`
    /// stops within `fuel0` exchanges without reading out of bounds,
    /// overflowing or dividing by zero.
    fn up_run_finishes(&self, start: &Vec<usize>, k0: usize, fuel0: usize) -> (r: bool)
        requires
            keys_ordered::<T>(),
        ensures
            r == fix_up_run(self@.a, self@.d, start@, k0 as int, fuel0 as nat) is Some,
    {
        let mut pq = copy_positions(start);
        let mut k = k0;
        let mut fuel = fuel0;
        loop
            invariant
                keys_ordered::<T>(),
                fix_up_run(self@.a, self@.d, pq@, k as int, fuel as nat) == fix_up_run(
                    self@.a,
                    self@.d,
                    start@,
                    k0 as int,
                    fuel0 as nat,
                ),
            decreases fuel,
        {
            if k <= 1 {
                return true;
            }
            if k > usize::MAX - self.d {
                return false;
            }
            let c = (k + self.d - 2) / 2;
            if !(c < pq.len() && pq[c] < self.a.len() && k < pq.len() && pq[k] < self.a.len()) {
                return false;
            }
            if !(self.a[pq[c]] > self.a[pq[k]]) {
                return true;
            }
            if self.d == 0 || fuel == 0 {
                return false;
            }
            let x = (k + self.d - 2) / self.d;
            proof {
                lemma_up_exchange_below(k as int, self@.d as int);
            }
            let ghost before = pq@;
            let pk = pq[k];
            let px = pq[x];
            pq.set(k, px);
            pq.set(x, pk);
            assert(pq@ =~= swap_at(before, k as int, x as int));
            k = c;
            fuel -= 1;
        }
    }

    /// Whether `getmin` can run here: the queue is not empty, and the
    /// sift-down it starts stops, without reading out of bounds, within as
    /// many rounds as the queue has positions. Every state on which this
    /// holds is one on which `getmin` may be called.
    pub fn check_take_min(&self) -> (r: bool)
        requires
            keys_ordered::<T>(),
        ensures
            r == (self@.n >= 1 && self@.n < self@.pq.len() && fix_down_run(
                self@.a,
                self@.d,
                (self@.n - 1) as usize,
                swap_at(self@.pq, 1, self@.n as int),
                1,
                self@.pq.len(),
            ) is Some),
            r ==> self@.can_take_min(),
            self@.d >= 1 && self@.can_take_min() ==> r,
    {
        if !(self.n >= 1 && self.n < self.pq.len()) {
            return false;
        }
        let mut pq = copy_positions(&self.pq);
        let last = pq[self.n];
        let first = pq[1];
        pq.set(1, last);
        pq.set(self.n, first);
        assert(pq@ =~= swap_at(self@.pq, 1, self@.n as int));
        proof {
            if self@.d >= 1 && self@.can_take_min() {
                let f = choose|f: nat| #[trigger] fix_down_run(self@.a, self@.d, (self@.n - 1) as usize, pq@, 1, f) is Some;
                lemma_fix_down_enough_fuel(self@.a, self@.d, (self@.n - 1) as usize, pq@, 1, f, self@.pq.len());
            }
        }
        self.down_run_finishes(&pq, self.n - 1, 1, self.pq.len())
    }

    /// Whether `insert(v)` can run here: the queue has a free position and
    /// item `v` a slot, and the sift-up it starts stops, without reading out
    /// of bounds, within as many exchanges as the queue has positions.
    /// Every state on which this holds is one on which `insert(v)` may be
    /// called.
    pub fn check_insert(&self, v: usize) -> (r: bool)
        requires
            keys_ordered::<T>(),
        ensures
            r == (self@.n < usize::MAX && self@.n + 1 < self@.pq.len() && v < self@.qp.len() && fix_up_run(
                self@.a,
                self@.d,
                self@.pq.update(self@.n + 1, v),
                self@.n + 1,
                self@.pq.len(),
            ) is Some),
            r ==> self@.can_insert(v),
            1 <= self@.d <= 2 && self@.can_insert(v) ==> r,
    {
        if !(self.n < usize::MAX && self.n + 1 < self.pq.len() && v < self.qp.len()) {
            return false;
        }
        let mut pq = copy_positions(&self.pq);
        pq.set(self.n + 1, v);
        proof {
            if 1 <= self@.d <= 2 && self@.can_insert(v) {
                let f = choose|f: nat| #[trigger] fix_up_run(self@.a, self@.d, pq@, self@.n + 1, f) is Some;
                lemma_fix_up_enough_fuel(self@.a, self@.d, pq@, self@.n + 1, f, self@.pq.len());
            }
        }
        self.up_run_finishes(&pq, self.n + 1, self.pq.len())
    }

    /// Whether `lower(k)` can run here: item `k` has a slot, and the sift-up
    /// from its recorded position stops, without reading out of bounds,
    /// within as many exchanges as the queue has positions. Every state on
    /// which this holds is one on which `lower(k)` may be called.
    pub fn check_lower(&self, k: usize) -> (r: bool)
        requires
            keys_ordered::<T>(),
        ensures
            r == (k < self@.qp.len() && fix_up_run(
                self@.a,
                self@.d,
                self@.pq,
                self@.qp[k as int] as int,
                self@.pq.len(),
            ) is Some),
            r ==> self@.can_lower(k),
            1 <= self@.d <= 2 && self@.can_lower(k) ==> r,
    {
        if k >= self.qp.len() {
            return false;
        }
        let p = self.qp[k];
        proof {
            if 1 <= self@.d <= 2 && self@.can_lower(k) {
                let f = choose|f: nat| #[trigger] fix_up_run(self@.a, self@.d, self@.pq, p as int, f) is Some;
                lemma_fix_up_enough_fuel(self@.a, self@.d, self@.pq, p as int, f, self@.pq.len());
            }
        }
        self.up_run_finishes(&self.pq, p, self.pq.len())
    }

    /// A queue of arity `d` over the keys `a` whose size is `n`, with
    /// `n + 1` positions in `pq` and `qp`, all holding 0.
    pub fn new(n: usize, a: Vec<T>, d: usize) -> (r: Self)
        requires
            n < usize::MAX,
        ensures
            r@ == (PQiState { d, n, pq: Seq::new((n + 1) as nat, |i: int| 0usize), qp: Seq::new((n + 1) as nat, |i: int| 0usize), a: a@ }),
    {
        let r = Self { d, n, pq: vec![0; n + 1], qp: vec![0; n + 1], a };
        assert(r.pq@ =~= Seq::new((n + 1) as nat, |i: int| 0usize));
        assert(r.qp@ =~= Seq::new((n + 1) as nat, |i: int| 0usize));
        r
    }
}

} // verus!
