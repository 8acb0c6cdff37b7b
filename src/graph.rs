//! Walks over a graph given as a neighbour function and a weight function, and their costs.
use vstd::prelude::*;

verus! {

/// A walk: a non-empty sequence of vertices, each a neighbour of the one before it.
pub open spec fn is_walk<V>(nbrs: spec_fn(V) -> Seq<V>, q: Seq<V>) -> bool {
    &&& q.len() > 0
    &&& forall|i: int| 0 <= i < q.len() - 1 ==> #[trigger] nbrs(q[i]).contains(q[i + 1])
}

/// A walk that starts at `s` and ends at `e`.
pub open spec fn is_walk_between<V>(nbrs: spec_fn(V) -> Seq<V>, q: Seq<V>, s: V, e: V) -> bool {
    &&& is_walk(nbrs, q)
    &&& q[0] == s
    &&& q.last() == e
}

/// Sum of the weights of the steps of a walk.
pub open spec fn walk_cost<V>(wt: spec_fn(V, V) -> nat, q: Seq<V>) -> nat
    decreases q.len(),
{
    if q.len() <= 1 {
        0
    } else {
        walk_cost(wt, q.drop_last()) + wt(q[q.len() - 2], q[q.len() - 1])
    }
}

/// `e` can be reached from `s` by some walk.
pub open spec fn reachable<V>(nbrs: spec_fn(V) -> Seq<V>, s: V, e: V) -> bool {
    exists|q: Seq<V>| is_walk_between(nbrs, q, s, e)
}

/// `p` is a walk from `s` to `e` whose cost no other such walk undercuts.
pub open spec fn is_shortest<V>(
    nbrs: spec_fn(V) -> Seq<V>,
    wt: spec_fn(V, V) -> nat,
    p: Seq<V>,
    s: V,
    e: V,
) -> bool {
    &&& is_walk_between(nbrs, p, s, e)
    &&& forall|q: Seq<V>| is_walk_between(nbrs, q, s, e) ==> walk_cost(wt, p) <= walk_cost(wt, q)
}

/// A finite set of vertices that holds `s` and every neighbour of each of its members.
pub open spec fn closed_finite<V>(nbrs: spec_fn(V) -> Seq<V>, univ: Set<V>, s: V) -> bool {
    &&& univ.finite()
    &&& univ.contains(s)
    &&& forall|u: V, v: V| univ.contains(u) && #[trigger] nbrs(u).contains(v) ==> univ.contains(v)
}

/// The graph reachable from `s` is finite.
pub open spec fn finite_from<V>(nbrs: spec_fn(V) -> Seq<V>, s: V) -> bool {
    exists|univ: Set<V>| closed_finite(nbrs, univ, s)
}

/// How many neighbours `nbrs` lists for the vertices of `vs` together: the number of arcs that
/// leave them.
pub open spec fn degree_sum<V>(nbrs: spec_fn(V) -> Seq<V>, vs: Seq<V>) -> nat
    decreases vs.len(),
{
    if vs.len() == 0 {
        0
    } else {
        degree_sum(nbrs, vs.drop_last()) + nbrs(vs.last()).len()
    }
}

/// Some walk from `s` to `v` costs less than `c`.
pub open spec fn closer_than<V>(nbrs: spec_fn(V) -> Seq<V>, wt: spec_fn(V, V) -> nat, s: V, v: V, c: nat) -> bool {
    exists|q: Seq<V>| is_walk_between(nbrs, q, s, v) && walk_cost(wt, q) < c
}

/// Every member of `vs` can be reached from `s` at a cost below `c`.
pub open spec fn all_closer<V>(nbrs: spec_fn(V) -> Seq<V>, wt: spec_fn(V, V) -> nat, s: V, vs: Set<V>, c: nat) -> bool {
    forall|v: V| #[trigger] vs.contains(v) ==> closer_than(nbrs, wt, s, v, c)
}

/// `vs` lists, each once, the vertices of a set that holds `s` and every neighbour of each
/// of its members.
pub open spec fn closed_listing<V>(nbrs: spec_fn(V) -> Seq<V>, vs: Seq<V>, s: V) -> bool {
    &&& vs.no_duplicates()
    &&& vs.contains(s)
    &&& forall|u: V, w: V| vs.contains(u) && #[trigger] nbrs(u).contains(w) ==> vs.contains(w)
}

/// Taking one vertex out of a listing takes its neighbours out of the sum.
pub proof fn lemma_degree_sum_remove<V>(nbrs: spec_fn(V) -> Seq<V>, vs: Seq<V>, i: int)
    requires
        0 <= i < vs.len(),
    ensures
        degree_sum(nbrs, vs) == degree_sum(nbrs, vs.remove(i)) + nbrs(vs[i]).len(),
    decreases vs.len(),
{
    if i == vs.len() - 1 {
        assert(vs.remove(i) =~= vs.drop_last());
    } else {
        lemma_degree_sum_remove(nbrs, vs.drop_last(), i);
        assert(vs.remove(i).drop_last() =~= vs.drop_last().remove(i));
        assert(vs.remove(i).last() == vs.last());
    }
}

/// A listing without repeats whose members all occur in another such listing sums to no more.
pub proof fn lemma_degree_sum_subset<V>(nbrs: spec_fn(V) -> Seq<V>, a: Seq<V>, b: Seq<V>)
    requires
        a.no_duplicates(),
        b.no_duplicates(),
        forall|x: V| #[trigger] a.contains(x) ==> b.contains(x),
    ensures
        degree_sum(nbrs, a) <= degree_sum(nbrs, b),
    decreases b.len(),
{
    if b.len() == 0 {
        if a.len() > 0 {
            assert(a.contains(a[0]));
        }
    } else {
        let x = b.last();
        let b1 = b.drop_last();
        assert forall|y: V| #[trigger] b.contains(y) && y != x implies b1.contains(y) by {
            let k = choose|k: int| 0 <= k < b.len() && b[k] == y;
            assert(b1[k] == y);
        }
        assert(!b1.contains(x)) by {
            if b1.contains(x) {
                let k = choose|k: int| 0 <= k < b1.len() && b1[k] == x;
                assert(b[k] == b[b.len() - 1]);
            }
        }
        if a.contains(x) {
            let i = choose|i: int| 0 <= i < a.len() && a[i] == x;
            let a1 = a.remove(i);
            assert forall|y: V| #[trigger] a1.contains(y) implies b1.contains(y) by {
                let k = choose|k: int| 0 <= k < a1.len() && a1[k] == y;
                if k < i {
                    assert(a[k] == y);
                    assert(k != i);
                } else {
                    assert(a[k + 1] == y);
                    assert(k + 1 != i);
                }
                assert(a.contains(y));
            }
            assert(a1.no_duplicates()) by {
                assert forall|p: int, q: int| 0 <= p < q < a1.len() implies a1[p] != a1[q] by {
                    let pp = if p < i { p } else { p + 1 };
                    let qq = if q < i { q } else { q + 1 };
                    assert(a1[p] == a[pp] && a1[q] == a[qq]);
                }
            }
            lemma_degree_sum_remove(nbrs, a, i);
            lemma_degree_sum_subset(nbrs, a1, b1);
        } else {
            assert forall|y: V| #[trigger] a.contains(y) implies b1.contains(y) by {
                assert(b.contains(y));
            }
            lemma_degree_sum_subset(nbrs, a, b1);
        }
    }
}

/// Extending a walk by a neighbour of its last vertex gives a walk.
pub proof fn lemma_walk_push<V>(nbrs: spec_fn(V) -> Seq<V>, q: Seq<V>, y: V)
    requires
        is_walk(nbrs, q),
        nbrs(q.last()).contains(y),
    ensures
        is_walk(nbrs, q.push(y)),
{
    let qy = q.push(y);
    assert forall|i: int| 0 <= i < qy.len() - 1 implies #[trigger] nbrs(qy[i]).contains(qy[i + 1]) by {
        if i < q.len() - 1 {
            assert(nbrs(q[i]).contains(q[i + 1]));
        }
    }
}

/// A set closed under `nbrs` that holds `s` holds every vertex reachable from `s`.
pub proof fn lemma_closed_holds_reachable<V>(nbrs: spec_fn(V) -> Seq<V>, univ: Set<V>, s: V, v: V)
    requires
        univ.contains(s),
        forall|u: V, w: V| univ.contains(u) && #[trigger] nbrs(u).contains(w) ==> univ.contains(w),
        reachable(nbrs, s, v),
    ensures
        univ.contains(v),
{
    let q = choose|q: Seq<V>| is_walk_between(nbrs, q, s, v);
    assert forall|k: int| 0 <= k < q.len() implies univ.contains(#[trigger] q[k]) by {
        lemma_walk_prefix_in(nbrs, univ, q, k);
    }
}

proof fn lemma_walk_prefix_in<V>(nbrs: spec_fn(V) -> Seq<V>, univ: Set<V>, q: Seq<V>, k: int)
    requires
        is_walk(nbrs, q),
        univ.contains(q[0]),
        forall|u: V, w: V| univ.contains(u) && #[trigger] nbrs(u).contains(w) ==> univ.contains(w),
        0 <= k < q.len(),
    ensures
        univ.contains(q[k]),
    decreases k,
{
    if k > 0 {
        lemma_walk_prefix_in(nbrs, univ, q, k - 1);
        let j = k - 1;
        assert(nbrs(q[j]).contains(q[j + 1]));
    }
}

/// A goal that only itself lists as a neighbour cannot be reached from anywhere else: a goal
/// whose every neighbour is blocked is unreachable.
pub proof fn lemma_enclosed_unreachable<V>(nbrs: spec_fn(V) -> Seq<V>, s: V, e: V)
    requires
        s != e,
        forall|u: V| u != e ==> !#[trigger] nbrs(u).contains(e),
    ensures
        !reachable(nbrs, s, e),
{
    if reachable(nbrs, s, e) {
        let q = choose|q: Seq<V>| is_walk_between(nbrs, q, s, e);
        let univ = Set::new(|v: V| v != e);
        lemma_walk_prefix_in(nbrs, univ, q, q.len() - 1);
    }
}

/// Two cheapest walks between the same two vertices cost the same, so searches repeated on
/// one graph agree on the total cost even where they return different walks.
pub proof fn lemma_shortest_same_cost<V>(
    nbrs: spec_fn(V) -> Seq<V>,
    wt: spec_fn(V, V) -> nat,
    p1: Seq<V>,
    p2: Seq<V>,
    s: V,
    e: V,
)
    requires
        is_shortest(nbrs, wt, p1, s, e),
        is_shortest(nbrs, wt, p2, s, e),
    ensures
        walk_cost(wt, p1) == walk_cost(wt, p2),
{
}

/// A prefix of a walk costs no more than the walk.
pub proof fn lemma_prefix_cost<V>(wt: spec_fn(V, V) -> nat, q: Seq<V>, m: int)
    requires
        1 <= m <= q.len(),
    ensures
        walk_cost(wt, q.take(m)) <= walk_cost(wt, q),
    decreases q.len() - m,
{
    if m < q.len() {
        lemma_prefix_cost(wt, q, m + 1);
        assert(q.take(m + 1).drop_last() =~= q.take(m));
    } else {
        assert(q.take(m) =~= q);
    }
}

/// A prefix of a walk is a walk.
pub proof fn lemma_prefix_walk<V>(nbrs: spec_fn(V) -> Seq<V>, q: Seq<V>, m: int)
    requires
        is_walk(nbrs, q),
        1 <= m <= q.len(),
    ensures
        is_walk(nbrs, q.take(m)),
{
    assert forall|i: int| 0 <= i < q.take(m).len() - 1 implies #[trigger] nbrs(q.take(m)[i]).contains(
        q.take(m)[i + 1],
    ) by {
        assert(nbrs(q[i]).contains(q[i + 1]));
    }
}

/// Putting a vertex in front of a walk adds the weight of the new first step.
pub proof fn lemma_prepend<V>(nbrs: spec_fn(V) -> Seq<V>, wt: spec_fn(V, V) -> nat, a: V, q: Seq<V>)
    requires
        is_walk(nbrs, q),
        nbrs(a).contains(q[0]),
    ensures
        is_walk(nbrs, seq![a] + q),
        walk_cost(wt, seq![a] + q) == wt(a, q[0]) + walk_cost(wt, q),
    decreases q.len(),
{
    let aq = seq![a] + q;
    assert forall|i: int| 0 <= i < aq.len() - 1 implies #[trigger] nbrs(aq[i]).contains(aq[i + 1]) by {
        if i > 0 {
            let j = i - 1;
            assert(nbrs(q[j]).contains(q[j + 1]));
        }
    }
    if q.len() > 1 {
        lemma_prefix_walk(nbrs, q, q.len() - 1);
        assert(q.drop_last() =~= q.take(q.len() - 1));
        lemma_prepend(nbrs, wt, a, q.drop_last());
        assert(aq.drop_last() =~= seq![a] + q.drop_last());
        assert(aq[aq.len() - 2] == q[q.len() - 2]);
        assert(q.drop_last()[0] == q[0]);
        assert(walk_cost(wt, q) == walk_cost(wt, q.drop_last()) + wt(q[q.len() - 2], q[q.len() - 1]));
        assert(walk_cost(wt, aq) == walk_cost(wt, aq.drop_last()) + wt(q[q.len() - 2], q[q.len() - 1]));
    } else {
        assert(aq.drop_last() =~= seq![a]);
        assert(walk_cost(wt, aq.drop_last()) == 0);
        assert(walk_cost(wt, aq) == wt(a, q[0]));
    }
}

} // verus!
