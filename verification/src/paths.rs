//! Walks in a weighted directed graph and their weights.

use vstd::prelude::*;

verus! {

/// An edge as a triple: source, destination, weight.
pub type Arc = (int, int, int);

/// `p` is a walk from `a` to `b` along edges of `g`; the empty walk stays where it is.
pub open spec fn is_walk(g: Set<Arc>, p: Seq<Arc>, a: int, b: int) -> bool {
    &&& forall|i: int| 0 <= i < p.len() ==> g.contains(#[trigger] p[i])
    &&& forall|i: int| 0 <= i < p.len() - 1 ==> (#[trigger] p[i]).1 == p[i + 1].0
    &&& if p.len() == 0 {
        a == b
    } else {
        p[0].0 == a && p[p.len() - 1].1 == b
    }
}

/// The sum of the weights along `p`.
pub open spec fn walk_weight(p: Seq<Arc>) -> int
    decreases p.len(),
{
    if p.len() == 0 {
        0
    } else {
        walk_weight(p.drop_last()) + p.last().2
    }
}

/// Some walk leads from `a` to `b`.
pub open spec fn reachable(g: Set<Arc>, a: int, b: int) -> bool {
    exists|p: Seq<Arc>| is_walk(g, p, a, b)
}

/// `d` is the weight of a walk from `a` to `b`, and no walk from `a` to `b` weighs less.
pub open spec fn is_least_weight(g: Set<Arc>, a: int, b: int, d: int) -> bool {
    &&& exists|p: Seq<Arc>| is_walk(g, p, a, b) && walk_weight(p) == d
    &&& forall|p: Seq<Arc>| is_walk(g, p, a, b) ==> d <= walk_weight(p)
}

/// No edge of `g` has a negative weight.
pub open spec fn non_negative(g: Set<Arc>) -> bool {
    forall|e: Arc| g.contains(e) ==> 0 <= e.2
}

/// Two least weights of walks between the same two nodes are one number.
pub proof fn lemma_least_unique(g: Set<Arc>, a: int, b: int, d: int, e: int)
    requires
        is_least_weight(g, a, b, d),
        is_least_weight(g, a, b, e),
    ensures
        d == e,
{
    let p = choose|p: Seq<Arc>| is_walk(g, p, a, b) && walk_weight(p) == d;
    let q = choose|q: Seq<Arc>| is_walk(g, q, a, b) && walk_weight(q) == e;
    assert(e <= walk_weight(p));
    assert(d <= walk_weight(q));
}

/// A walk goes on by one edge that starts where it ends, and gains that edge's weight.
pub proof fn lemma_walk_push(g: Set<Arc>, p: Seq<Arc>, a: int, e: Arc)
    requires
        is_walk(g, p, a, e.0),
        g.contains(e),
    ensures
        is_walk(g, p.push(e), a, e.1),
        walk_weight(p.push(e)) == walk_weight(p) + e.2,
{
    let q = p.push(e);
    assert(q.drop_last() =~= p);
    assert forall|i: int| 0 <= i < q.len() implies g.contains(#[trigger] q[i]) by {
        if i < p.len() {
            assert(q[i] == p[i]);
        }
    }
    assert forall|i: int| 0 <= i < q.len() - 1 implies (#[trigger] q[i]).1 == q[i + 1].0 by {
        if i < p.len() - 1 {
            assert(q[i] == p[i]);
            assert(q[i + 1] == p[i + 1]);
        } else {
            assert(q[i] == p[p.len() - 1]);
        }
    }
    if p.len() > 0 {
        assert(q[0] == p[0]);
    }
}

/// Without its last edge a walk is a walk to that edge's source.
pub proof fn lemma_walk_drop_last(g: Set<Arc>, p: Seq<Arc>, a: int, b: int)
    requires
        is_walk(g, p, a, b),
        p.len() > 0,
    ensures
        is_walk(g, p.drop_last(), a, p.last().0),
        g.contains(p.last()),
        p.last().1 == b,
        walk_weight(p) == walk_weight(p.drop_last()) + p.last().2,
{
    let q = p.drop_last();
    assert forall|i: int| 0 <= i < q.len() implies g.contains(#[trigger] q[i]) by {
        assert(q[i] == p[i]);
    }
    assert forall|i: int| 0 <= i < q.len() - 1 implies (#[trigger] q[i]).1 == q[i + 1].0 by {
        assert(q[i] == p[i]);
        assert(q[i + 1] == p[i + 1]);
    }
    if q.len() > 0 {
        assert(q[0] == p[0]);
        assert(q[q.len() - 1] == p[q.len() - 1]);
    }
}

/// Where no weight is negative, no walk has a negative weight.
pub proof fn lemma_weight_non_negative(g: Set<Arc>, p: Seq<Arc>, a: int, b: int)
    requires
        non_negative(g),
        is_walk(g, p, a, b),
    ensures
        0 <= walk_weight(p),
    decreases p.len(),
{
    if p.len() > 0 {
        lemma_walk_drop_last(g, p, a, b);
        lemma_weight_non_negative(g, p.drop_last(), a, p.last().0);
    }
}

/// The weight of two walks joined is the sum of their weights.
pub proof fn lemma_weight_concat(p: Seq<Arc>, q: Seq<Arc>)
    ensures
        walk_weight(p + q) == walk_weight(p) + walk_weight(q),
    decreases q.len(),
{
    if q.len() == 0 {
        assert(p + q =~= p);
    } else {
        assert((p + q).drop_last() =~= p + q.drop_last());
        assert((p + q).last() == q.last());
        lemma_weight_concat(p, q.drop_last());
    }
}

/// Two walks, the second starting where the first ends, join into one walk.
pub proof fn lemma_walk_concat(g: Set<Arc>, p: Seq<Arc>, q: Seq<Arc>, a: int, m: int, b: int)
    requires
        is_walk(g, p, a, m),
        is_walk(g, q, m, b),
    ensures
        is_walk(g, p + q, a, b),
        walk_weight(p + q) == walk_weight(p) + walk_weight(q),
{
    lemma_weight_concat(p, q);
    let r = p + q;
    assert forall|i: int| 0 <= i < r.len() implies g.contains(#[trigger] r[i]) by {
        if i < p.len() {
            assert(r[i] == p[i]);
        } else {
            assert(r[i] == q[i - p.len()]);
        }
    }
    assert forall|i: int| 0 <= i < r.len() - 1 implies (#[trigger] r[i]).1 == r[i + 1].0 by {
        if i + 1 < p.len() {
            assert(r[i] == p[i]);
            assert(r[i + 1] == p[i + 1]);
        } else if i < p.len() {
            assert(r[i] == p[p.len() - 1]);
            assert(r[i + 1] == q[0]);
        } else {
            assert(r[i] == q[i - p.len()]);
            assert(r[i + 1] == q[i - p.len() + 1]);
        }
    }
    if p.len() > 0 {
        assert(r[0] == p[0]);
    } else if q.len() > 0 {
        assert(r[0] == q[0]);
    }
    if q.len() > 0 {
        assert(r[r.len() - 1] == q[q.len() - 1]);
    } else if p.len() > 0 {
        assert(r[r.len() - 1] == p[p.len() - 1]);
    }
}

/// The node at which a walk from `a` stands after its first `i` edges.
pub open spec fn stop(p: Seq<Arc>, a: int, i: int) -> int {
    if i <= 0 {
        a
    } else {
        p[i - 1].1
    }
}

/// Any stretch of a walk is a walk between the nodes at its two ends.
pub proof fn lemma_walk_slice(g: Set<Arc>, p: Seq<Arc>, a: int, b: int, i: int, j: int)
    requires
        is_walk(g, p, a, b),
        0 <= i <= j <= p.len(),
    ensures
        is_walk(g, p.subrange(i, j), stop(p, a, i), stop(p, a, j)),
        stop(p, a, p.len() as int) == b,
        stop(p, a, 0) == a,
{
    let q = p.subrange(i, j);
    assert forall|k: int| 0 <= k < q.len() implies g.contains(#[trigger] q[k]) by {
        assert(q[k] == p[i + k]);
    }
    assert forall|k: int| 0 <= k < q.len() - 1 implies (#[trigger] q[k]).1 == q[k + 1].0 by {
        assert(q[k] == p[i + k]);
        assert(q[k + 1] == p[i + k + 1]);
    }
    if q.len() > 0 {
        assert(q[0] == p[i]);
        assert(q[q.len() - 1] == p[j - 1]);
        if i > 0 {
            assert(p[i - 1].1 == p[i - 1 + 1].0);
        }
    }
}

/// More values than there are numbers below `n` cannot all lie below `n` and differ.
pub proof fn lemma_pigeonhole(values: Seq<int>, n: int)
    requires
        0 <= n < values.len(),
        forall|i: int| 0 <= i < values.len() ==> 0 <= #[trigger] values[i] < n,
    ensures
        exists|i: int, j: int| 0 <= i < j < values.len() && values[i] == values[j],
{
    if !exists|i: int, j: int| 0 <= i < j < values.len() && values[i] == values[j] {
        assert(values.no_duplicates()) by {
            assert forall|i: int, j: int|
                0 <= i < values.len() && 0 <= j < values.len() && i != j implies values[i]
                != values[j] by {
                if i < j {
                    assert(!(0 <= i < j < values.len() && values[i] == values[j]));
                } else {
                    assert(!(0 <= j < i < values.len() && values[j] == values[i]));
                }
            }
        }
        values.unique_seq_to_set();
        let below = vstd::set_lib::set_int_range(0, n);
        vstd::set_lib::lemma_int_range(0, n);
        assert(values.to_set().subset_of(below)) by {
            assert forall|x: int| values.to_set().contains(x) implies below.contains(x) by {
                let k = choose|k: int| 0 <= k < values.len() && values[k] == x;
                assert(0 <= values[k] < n);
            }
        }
        vstd::set_lib::lemma_len_subset(values.to_set(), below);
    }
}

/// Every edge of `g` joins two nodes below `n`.
pub open spec fn within(g: Set<Arc>, n: int) -> bool {
    forall|e: Arc| #[trigger] g.contains(e) ==> 0 <= e.0 < n && 0 <= e.1 < n
}

/// Every node that `p` passes through, its two ends apart, lies below `m`.
pub open spec fn inner_below(p: Seq<Arc>, m: int) -> bool {
    forall|i: int| 0 < i < p.len() ==> (#[trigger] p[i]).0 < m
}

/// No cycle that can be reached from `a` has a negative weight.
pub open spec fn no_negative_cycle_from(g: Set<Arc>, a: int) -> bool {
    forall|x: int, r: Seq<Arc>, c: Seq<Arc>|
        is_walk(g, r, a, x) && is_walk(g, c, x, x) ==> walk_weight(c) >= 0
}

/// A cycle of negative weight can be reached from `a`.
pub open spec fn negative_cycle_from(g: Set<Arc>, a: int) -> bool {
    exists|x: int, r: Seq<Arc>, c: Seq<Arc>|
        is_walk(g, r, a, x) && is_walk(g, c, x, x) && walk_weight(c) < 0
}

/// Where no cycle reached from `a` is negative, a walk from `a` can be cut down
/// to fewer than `n` edges without gaining weight or passing through new nodes.
pub proof fn lemma_shortcut(g: Set<Arc>, n: int, p: Seq<Arc>, a: int, b: int) -> (q: Seq<Arc>)
    requires
        is_walk(g, p, a, b),
        0 <= a < n,
        within(g, n),
        no_negative_cycle_from(g, a),
    ensures
        is_walk(g, q, a, b),
        q.len() < n,
        walk_weight(q) <= walk_weight(p),
        forall|m: int| inner_below(p, m) ==> inner_below(q, m),
    decreases p.len(),
{
    if p.len() < n {
        p
    } else {
        let stops = Seq::new(p.len() + 1, |i: int| stop(p, a, i));
        assert forall|i: int| 0 <= i < stops.len() implies 0 <= #[trigger] stops[i] < n by {
            if i > 0 {
                assert(g.contains(p[i - 1]));
            }
        }
        lemma_pigeonhole(stops, n);
        let (i, j) = choose|i: int, j: int| 0 <= i < j < stops.len() && stops[i] == stops[j];
        let x = stop(p, a, i);
        let head = p.subrange(0, i);
        let cycle = p.subrange(i, j);
        let tail = p.subrange(j, p.len() as int);
        lemma_walk_slice(g, p, a, b, 0, i);
        lemma_walk_slice(g, p, a, b, i, j);
        lemma_walk_slice(g, p, a, b, j, p.len() as int);
        assert(is_walk(g, head, a, x));
        assert(is_walk(g, cycle, x, x));
        assert(walk_weight(cycle) >= 0);
        lemma_weight_concat(head, cycle);
        lemma_weight_concat(head + cycle, tail);
        assert(head + cycle + tail =~= p);
        let cut = head + tail;
        lemma_walk_concat(g, head, tail, a, x, b);
        assert forall|m: int| inner_below(p, m) implies inner_below(cut, m) by {
            assert forall|k: int| 0 < k < cut.len() implies (#[trigger] cut[k]).0 < m by {
                if k < i {
                    assert(cut[k] == p[k]);
                } else {
                    assert(cut[k] == p[k - i + j]);
                }
            }
        }
        lemma_shortcut(g, n, cut, a, b)
    }
}

/// No cycle of `g` has a negative weight.
pub open spec fn no_negative_cycle(g: Set<Arc>) -> bool {
    forall|x: int, c: Seq<Arc>| is_walk(g, c, x, x) ==> walk_weight(c) >= 0
}

/// A cycle of negative weight passes through `x`.
pub open spec fn negative_cycle_through(g: Set<Arc>, x: int) -> bool {
    exists|c: Seq<Arc>| is_walk(g, c, x, x) && walk_weight(c) < 0
}

/// No weight in `g` is larger in size than `cap`.
pub open spec fn capped(g: Set<Arc>, cap: int) -> bool {
    forall|e: Arc| #[trigger] g.contains(e) ==> -cap <= e.2 <= cap
}

/// What holds of the cycles reached from `a` holds of those reached from a node
/// that `a` reaches.
pub proof fn lemma_cycles_carry(g: Set<Arc>, a: int, k: int, r: Seq<Arc>)
    requires
        is_walk(g, r, a, k),
        no_negative_cycle_from(g, a),
    ensures
        no_negative_cycle_from(g, k),
{
    assert forall|x: int, s: Seq<Arc>, c: Seq<Arc>|
        is_walk(g, s, k, x) && is_walk(g, c, x, x) implies walk_weight(c) >= 0 by {
        lemma_walk_concat(g, r, s, a, k, x);
    }
}

/// A walk weighs no more in size than its edges together can.
pub proof fn lemma_weight_capped(g: Set<Arc>, p: Seq<Arc>, a: int, b: int, cap: int)
    requires
        is_walk(g, p, a, b),
        capped(g, cap),
    ensures
        -(p.len() * cap) <= walk_weight(p) <= p.len() * cap,
    decreases p.len(),
{
    if p.len() > 0 {
        lemma_walk_drop_last(g, p, a, b);
        lemma_weight_capped(g, p.drop_last(), a, p.last().0, cap);
        assert(p.len() * cap == (p.len() - 1) * cap + cap) by (nonlinear_arith);
    } else {
        assert(p.len() * cap == 0) by (nonlinear_arith)
            requires
                p.len() == 0,
        ;
    }
}

/// Two walks joined at a node below `m` pass through nodes below `m` if each does.
pub proof fn lemma_concat_inner(p: Seq<Arc>, q: Seq<Arc>, m: int)
    requires
        inner_below(p, m),
        inner_below(q, m),
        p.len() > 0 && q.len() > 0 ==> q[0].0 < m,
    ensures
        inner_below(p + q, m),
{
    let r = p + q;
    assert forall|i: int| 0 < i < r.len() implies (#[trigger] r[i]).0 < m by {
        if i < p.len() {
            assert(r[i] == p[i]);
        } else {
            assert(r[i] == q[i - p.len()]);
        }
    }
}

/// A walk from `a` to `b` that passes through `k` and else only through nodes
/// below `k` weighs no less than two walks together, one from `a` to `k` and one
/// from `k` to `b`, that pass only through nodes below `k`: what it does more
/// is cycles at `k`, and none of those is negative.
pub proof fn lemma_through(g: Set<Arc>, p: Seq<Arc>, a: int, b: int, k: int) -> (halves: (
    Seq<Arc>,
    Seq<Arc>,
))
    requires
        is_walk(g, p, a, b),
        inner_below(p, k + 1),
        !inner_below(p, k),
        no_negative_cycle_from(g, a),
    ensures
        is_walk(g, halves.0, a, k),
        is_walk(g, halves.1, k, b),
        inner_below(halves.0, k),
        inner_below(halves.1, k),
        walk_weight(halves.0) + walk_weight(halves.1) <= walk_weight(p),
    decreases p.len(),
{
    let t = choose|t: int| 0 < t < p.len() && !((#[trigger] p[t]).0 < k);
    assert(p[t].0 < k + 1);
    let front = p.subrange(0, t);
    let back = p.subrange(t, p.len() as int);
    lemma_walk_slice(g, p, a, b, 0, t);
    lemma_walk_slice(g, p, a, b, t, p.len() as int);
    assert(p[t - 1].1 == p[t - 1 + 1].0);
    assert(is_walk(g, front, a, k));
    assert(is_walk(g, back, k, b));
    lemma_weight_concat(front, back);
    assert(front + back =~= p);
    assert(inner_below(front, k + 1)) by {
        assert forall|i: int| 0 < i < front.len() implies (#[trigger] front[i]).0 < k + 1 by {
            assert(front[i] == p[i]);
        }
    }
    assert(inner_below(back, k + 1)) by {
        assert forall|i: int| 0 < i < back.len() implies (#[trigger] back[i]).0 < k + 1 by {
            assert(back[i] == p[i + t]);
        }
    }
    lemma_cycles_carry(g, a, k, front);
    let first = if inner_below(front, k) {
        front
    } else {
        let parts = lemma_through(g, front, a, k, k);
        assert(is_walk(g, parts.1, k, k));
        assert(is_walk(g, parts.0, a, k));
        assert(walk_weight(parts.1) >= 0);
        parts.0
    };
    let second = if inner_below(back, k) {
        back
    } else {
        let parts = lemma_through(g, back, k, b, k);
        assert(is_walk(g, parts.0, k, k));
        assert(is_walk(g, Seq::<Arc>::empty(), k, k));
        assert(walk_weight(parts.0) >= 0);
        parts.1
    };
    (first, second)
}

} // verus!
