//! Dijkstra's shortest-path search over a graph given by a cost closure and a neighbour closure.
use crate::graph::{
    all_closer, closed_finite, closed_listing, closer_than, degree_sum, finite_from, is_shortest,
    is_walk, is_walk_between, lemma_closed_holds_reachable, lemma_degree_sum_subset,
    lemma_prefix_cost, lemma_prefix_walk, lemma_prepend, lemma_walk_push, reachable, walk_cost,
};
use std::collections::HashMap;
use std::hash::Hash;
use vstd::prelude::*;
use vstd::std_specs::hash::obeys_key_model;

verus! {

broadcast use vstd::std_specs::hash::group_hash_axioms;

/// The largest weight of a single step.
pub const MAX_STEP: u128 = 18446744073709551615;

/// A frontier entry: a vertex and the accumulated cost it was queued with.
pub struct DjikstraNode<P, V> {
    pub priority: P,
    pub vertex: V,
}

impl<P, V> DjikstraNode<P, V> {
    pub fn new(priority: P, vertex: V) -> (r: Self)
        ensures
            r.priority == priority,
            r.vertex == vertex,
    {
        DjikstraNode { priority, vertex }
    }
}

/// The neighbours that `adjacent` lists for each vertex.
pub open spec fn neighbours_of<V, A: Fn(V) -> Vec<V>>(adjacent: A) -> spec_fn(V) -> Seq<V> {
    |u: V| (choose|r: Vec<V>| call_ensures(adjacent, (u,), r))@
}

/// The weight that `cost` gives each step.
pub open spec fn weights_of<V, C: Fn(V, V) -> u64>(cost: C) -> spec_fn(V, V) -> nat {
    |u: V, v: V| (choose|w: u64| call_ensures(cost, (u, v), w)) as nat
}

/// `adjacent` may be called on any vertex and lists `nbrs` of it; `cost` may be called on
/// any vertex and one of its neighbours and gives `wt` of that step.
pub open spec fn describes<V, C: Fn(V, V) -> u64, A: Fn(V) -> Vec<V>>(
    cost: C,
    adjacent: A,
    nbrs: spec_fn(V) -> Seq<V>,
    wt: spec_fn(V, V) -> nat,
) -> bool {
    &&& forall|u: V| call_requires(adjacent, (u,))
    &&& forall|u: V, r: Vec<V>| #[trigger] call_ensures(adjacent, (u,), r) ==> r@ == nbrs(u)
    &&& forall|u: V, v: V| #[trigger] nbrs(u).contains(v) ==> call_requires(cost, (u, v))
    &&& forall|u: V, v: V, w: u64|
        nbrs(u).contains(v) && #[trigger] call_ensures(cost, (u, v), w) ==> w as nat == wt(u, v)
}

/// `adjacent` and `cost` give the same answer each time they are asked, so that they
/// describe one graph.
pub open spec fn well_behaved<V, C: Fn(V, V) -> u64, A: Fn(V) -> Vec<V>>(
    cost: C,
    adjacent: A,
) -> bool {
    describes(cost, adjacent, neighbours_of(adjacent), weights_of(cost))
}

/// The queue holds an entry for vertex index `j` with priority `p`.
pub open spec fn has_entry(queue: Seq<DjikstraNode<u128, usize>>, p: u128, j: usize) -> bool {
    exists|k: int| 0 <= k < queue.len() && #[trigger] queue[k] == DjikstraNode { priority: p, vertex: j }
}

/// The tables of one run. Vertices are numbered in the order they are found; `verts` and
/// `index` map each number to its vertex and back.
#[verifier::reject_recursive_types(V)]
struct Search<V> {
    verts: Vec<V>,
    index: HashMap<V, usize>,
    dist: Vec<u128>,
    prev: Vec<usize>,
    done: Vec<bool>,
    queue: Vec<DjikstraNode<u128, usize>>,
    settled: Ghost<Set<V>>,
    rank: Ghost<Seq<nat>>,
}

impl<V: Copy + Eq + Hash> Search<V> {
    spec fn wf(&self) -> bool {
        let n = self.verts@.len();
        &&& 1 <= n <= usize::MAX
        &&& self.dist@.len() == n
        &&& self.prev@.len() == n
        &&& self.done@.len() == n
        &&& self.rank@.len() == n
        &&& forall|i: int|
            0 <= i < n ==> #[trigger] self.index@.contains_key(self.verts@[i])
                && self.index@[self.verts@[i]] == i
        &&& forall|y: V|
            #[trigger] self.index@.contains_key(y) ==> self.index@[y] < n && self.verts@[self.index@[y] as int] == y
        &&& forall|k: int| 0 <= k < self.queue@.len() ==> (#[trigger] self.queue@[k]).vertex < n
        &&& self.settled@.finite()
        &&& forall|x: V| #[trigger] self.settled@.contains(x) ==> self.index@.contains_key(x)
        &&& forall|i: int| 0 <= i < n ==> #[trigger] self.done@[i] == self.settled@.contains(self.verts@[i])
        &&& forall|i: int| 0 <= i < n && #[trigger] self.done@[i] ==> self.rank@[i] < self.settled@.len()
    }

    /// What the tables say is true of the graph.
    spec fn sound(&self, nbrs: spec_fn(V) -> Seq<V>, wt: spec_fn(V, V) -> nat, start: V) -> bool {
        let n = self.verts@.len();
        &&& self.verts@[0] == start
        &&& self.dist@[0] == 0
        &&& forall|j: int|
            #![trigger self.prev@[j]]
            0 < j < n ==> {
                let i = self.prev@[j] as int;
                &&& 0 <= i < n
                &&& self.done@[i]
                &&& nbrs(self.verts@[i]).contains(self.verts@[j])
                &&& self.dist@[j] == self.dist@[i] + wt(self.verts@[i], self.verts@[j])
                &&& self.done@[j] ==> self.rank@[i] < self.rank@[j]
            }
        &&& forall|j: int|
            0 <= j < n && #[trigger] self.done@[j] ==> forall|q: Seq<V>|
                is_walk_between(nbrs, q, start, self.verts@[j]) ==> self.dist@[j] <= walk_cost(wt, q)
        &&& forall|u: int, j: int|
            0 <= u < n && 0 <= j < n && #[trigger] self.done@[u] && !#[trigger] self.done@[j]
                ==> self.dist@[u] <= self.dist@[j]
        &&& forall|k: int|
            0 <= k < self.queue@.len() ==> (#[trigger] self.queue@[k]).priority
                >= self.dist@[self.queue@[k].vertex as int]
        &&& forall|j: int|
            0 <= j < n ==> #[trigger] self.dist@[j] <= self.settled@.len() * MAX_STEP
    }

    /// Each unfinished vertex other than `skip` is queued at its recorded distance.
    spec fn queued(&self, skip: int) -> bool {
        forall|j: int|
            0 <= j < self.verts@.len() && !#[trigger] self.done@[j] && j != skip ==> has_entry(
                self.queue@,
                self.dist@[j],
                j as usize,
            )
    }

    /// Every neighbour of a finished vertex other than `skip` is known, at no more than the
    /// cost of reaching it through that vertex.
    spec fn relaxed(&self, nbrs: spec_fn(V) -> Seq<V>, wt: spec_fn(V, V) -> nat, skip: int) -> bool {
        forall|j: int|
            0 <= j < self.verts@.len() && #[trigger] self.done@[j] && j != skip ==> self.relaxed_from(
                wt,
                j,
                nbrs(self.verts@[j]),
            )
    }

    spec fn relaxed_from(&self, wt: spec_fn(V, V) -> nat, j: int, ys: Seq<V>) -> bool {
        forall|y: V|
            #[trigger] ys.contains(y) ==> self.index@.contains_key(y) && self.dist@[self.index@[y] as int]
                <= self.dist@[j] + wt(self.verts@[j], y)
    }

    /// The goal, once found, is not yet finished.
    spec fn end_open(&self, end: V) -> bool {
        self.index@.contains_key(end) ==> !self.done@[self.index@[end] as int]
    }

    fn new(start: V) -> (s: Self)
        requires
            obeys_key_model::<V>(),
        ensures
            s.wf(),
            forall|nbrs: spec_fn(V) -> Seq<V>, wt: spec_fn(V, V) -> nat|
                s.sound(nbrs, wt, start) && s.relaxed(nbrs, wt, -1),
            s.queued(-1),
            s.verts@ == seq![start],
            s.queue@.len() == 1,
            s.settled@ == Set::<V>::empty(),
            s.index@ == map![start => 0usize],
    {
        let mut verts: Vec<V> = Vec::new();
        verts.push(start);
        let mut index: HashMap<V, usize> = HashMap::new();
        index.insert(start, 0);
        let mut dist: Vec<u128> = Vec::new();
        dist.push(0);
        let mut prev: Vec<usize> = Vec::new();
        prev.push(0);
        let mut done: Vec<bool> = Vec::new();
        done.push(false);
        let mut queue: Vec<DjikstraNode<u128, usize>> = Vec::new();
        queue.push(DjikstraNode::new(0, 0));
        let ghost settled = Set::<V>::empty();
        let ghost rank = seq![0nat];
        let s = Search {
            verts,
            index,
            dist,
            prev,
            done,
            queue,
            settled: Ghost(settled),
            rank: Ghost(rank),
        };
        assert(s.index@ =~= map![start => 0usize]);
        assert(has_entry(s.queue@, 0, 0)) by {
            assert(s.queue@[0] == DjikstraNode { priority: 0u128, vertex: 0usize });
        }
        s
    }

    /// Removes and returns an entry of least priority.
    fn take_min(&mut self) -> (r: DjikstraNode<u128, usize>)
        requires
            old(self).queue@.len() > 0,
        ensures
            final(self).verts == old(self).verts,
            final(self).index == old(self).index,
            final(self).dist == old(self).dist,
            final(self).prev == old(self).prev,
            final(self).done == old(self).done,
            final(self).settled == old(self).settled,
            final(self).rank == old(self).rank,
            final(self).queue@.len() == old(self).queue@.len() - 1,
            old(self).queue@.contains(r),
            forall|k: int| 0 <= k < old(self).queue@.len() ==> r.priority <= (#[trigger] old(self).queue@[k]).priority,
            forall|k: int| 0 <= k < final(self).queue@.len() ==> old(self).queue@.contains(#[trigger] final(self).queue@[k]),
            forall|p: u128, j: usize|
                #[trigger] has_entry(old(self).queue@, p, j) && !(p == r.priority && j == r.vertex)
                    ==> has_entry(final(self).queue@, p, j),
    {
        let mut best: usize = 0;
        let mut k: usize = 1;
        while k < self.queue.len()
            invariant
                1 <= k <= self.queue@.len(),
                best < self.queue@.len(),
                forall|i: int| 0 <= i < k ==> self.queue@[best as int].priority <= (#[trigger] self.queue@[i]).priority,
            decreases self.queue@.len() - k,
        {
            if self.queue[k].priority < self.queue[best].priority {
                best = k;
            }
            k = k + 1;
        }
        let ghost q0 = self.queue@;
        let r = self.queue.remove(best);
        assert(q0.contains(r)) by {
            assert(q0[best as int] == r);
        }
        assert forall|k: int| 0 <= k < self.queue@.len() implies q0.contains(#[trigger] self.queue@[k]) by {
            if k < best {
                assert(q0[k] == self.queue@[k]);
            } else {
                assert(q0[k + 1] == self.queue@[k]);
            }
        }
        assert forall|p: u128, j: usize|
            #[trigger] has_entry(q0, p, j) && !(p == r.priority && j == r.vertex) implies has_entry(
                self.queue@,
                p,
                j,
            ) by {
            let k = choose|k: int| 0 <= k < q0.len() && #[trigger] q0[k] == DjikstraNode { priority: p, vertex: j };
            if k < best {
                assert(self.queue@[k] == q0[k]);
            } else {
                assert(self.queue@[k - 1] == q0[k]);
            }
        }
        r
    }

    /// Marks vertex `v` finished.
    fn settle(&mut self, v: usize, Ghost(nbrs): Ghost<spec_fn(V) -> Seq<V>>, Ghost(wt): Ghost<spec_fn(V, V) -> nat>, Ghost(start): Ghost<V>)
        requires
            old(self).wf(),
            old(self).sound(nbrs, wt, start),
            old(self).queued(v as int),
            old(self).relaxed(nbrs, wt, -1),
            v < old(self).verts@.len(),
            !old(self).done@[v as int],
            forall|k: int| 0 <= k < old(self).queue@.len() ==> old(self).dist@[v as int] <= (#[trigger] old(self).queue@[k]).priority,
        ensures
            final(self).wf(),
            final(self).sound(nbrs, wt, start),
            final(self).queued(-1),
            final(self).relaxed(nbrs, wt, v as int),
            final(self).verts == old(self).verts,
            final(self).index == old(self).index,
            final(self).dist == old(self).dist,
            final(self).prev == old(self).prev,
            final(self).queue == old(self).queue,
            final(self).done@ == old(self).done@.update(v as int, true),
            final(self).settled@ == old(self).settled@.insert(old(self).verts@[v as int]),
            forall|u: int| 0 <= u < final(self).verts@.len() && #[trigger] final(self).done@[u]
                ==> final(self).dist@[u] <= final(self).dist@[v as int],
            final(self).dist@[v as int] + MAX_STEP <= final(self).settled@.len() * MAX_STEP,
    {
        proof {
            self.lemma_optimal(nbrs, wt, start, v as int);
            self.lemma_settled_bound(v as int);
        }
        let ghost s0 = self.settled@;
        let ghost r0 = self.rank@;
        let ghost d0 = self.done@;
        let ghost x = self.verts@[v as int];
        self.done.set(v, true);
        proof {
            self.settled@ = s0.insert(x);
            self.rank@ = r0.update(v as int, s0.len());
            assert(!s0.contains(x));
            assert(self.index@.contains_key(x));
            assert forall|y: V| #[trigger] self.settled@.contains(y) implies self.index@.contains_key(y) by {
                if y != x {
                    assert(s0.contains(y));
                }
            }
            assert forall|i: int| 0 <= i < self.verts@.len() implies #[trigger] self.done@[i] == self.settled@.contains(self.verts@[i]) by {
                if i != v {
                    assert(self.index@.contains_key(self.verts@[i]));
                    assert(self.verts@[i] != x);
                }
            }
            assert forall|u: int, j: int|
                0 <= u < self.verts@.len() && 0 <= j < self.verts@.len() && #[trigger] self.done@[u] && !#[trigger] self.done@[j]
                implies self.dist@[u] <= self.dist@[j] by {
                if u == v {
                    assert(has_entry(self.queue@, self.dist@[j], j as usize));
                    let k = choose|k: int| 0 <= k < self.queue@.len() && #[trigger] self.queue@[k] == DjikstraNode { priority: self.dist@[j], vertex: j as usize };
                    assert(self.dist@[v as int] <= self.queue@[k].priority);
                } else {
                    assert(d0[u] && !d0[j]);
                }
            }
            assert forall|u: int| 0 <= u < self.verts@.len() && #[trigger] self.done@[u] implies self.dist@[u] <= self.dist@[v as int] by {
                if u != v {
                    assert(d0[u] && !d0[v as int]);
                }
            }
            assert forall|j: int| #![trigger self.prev@[j]] 0 < j < self.verts@.len() implies {
                let i = self.prev@[j] as int;
                &&& 0 <= i < self.verts@.len()
                &&& self.done@[i]
                &&& nbrs(self.verts@[i]).contains(self.verts@[j])
                &&& self.dist@[j] == self.dist@[i] + wt(self.verts@[i], self.verts@[j])
                &&& self.done@[j] ==> self.rank@[i] < self.rank@[j]
            } by {
                let i = self.prev@[j] as int;
                assert(d0[i]);
                assert(i != v);
                if j == v {
                    assert(r0[i] < s0.len());
                }
            }
            assert forall|j: int| 0 <= j < self.verts@.len() && #[trigger] self.done@[j] implies forall|q: Seq<V>|
                is_walk_between(nbrs, q, start, self.verts@[j]) ==> self.dist@[j] <= walk_cost(wt, q) by {
                if j != v {
                    assert(d0[j]);
                }
            }
            assert forall|j: int| 0 <= j < self.verts@.len() && #[trigger] self.done@[j] && j != v implies self.relaxed_from(wt, j, nbrs(self.verts@[j])) by {
                assert(d0[j]);
            }
            assert forall|j: int| 0 <= j < self.verts@.len() && !#[trigger] self.done@[j] && j != -1 implies has_entry(self.queue@, self.dist@[j], j as usize) by {
                assert(!d0[j]);
            }
            assert forall|i: int| 0 <= i < self.verts@.len() && #[trigger] self.done@[i] implies self.rank@[i] < self.settled@.len() by {
                if i != v {
                    assert(d0[i]);
                }
            }
            assert forall|j: int| 0 <= j < self.verts@.len() implies #[trigger] self.dist@[j] <= self.settled@.len() * MAX_STEP by {
                assert(self.dist@[j] <= s0.len() * MAX_STEP);
            }
            assert(self.settled@.finite());
            assert(self.done@.len() == self.verts@.len());
            assert(self.rank@.len() == self.verts@.len());
            assert(self.wf());
        }
    }

    /// Offers `y` a route through the finished vertex `v` at total cost `alt`.
    fn relax(&mut self, v: usize, y: V, alt: u128, Ghost(nbrs): Ghost<spec_fn(V) -> Seq<V>>, Ghost(wt): Ghost<spec_fn(V, V) -> nat>, Ghost(start): Ghost<V>)
        requires
            obeys_key_model::<V>(),
            old(self).wf(),
            old(self).sound(nbrs, wt, start),
            old(self).queued(-1),
            old(self).relaxed(nbrs, wt, v as int),
            v < old(self).verts@.len(),
            old(self).done@[v as int],
            forall|u: int| 0 <= u < old(self).verts@.len() && #[trigger] old(self).done@[u]
                ==> old(self).dist@[u] <= old(self).dist@[v as int],
            nbrs(old(self).verts@[v as int]).contains(y),
            alt == old(self).dist@[v as int] + wt(old(self).verts@[v as int], y),
            alt <= old(self).settled@.len() * MAX_STEP,
        ensures
            final(self).wf(),
            final(self).sound(nbrs, wt, start),
            final(self).queued(-1),
            final(self).relaxed(nbrs, wt, v as int),
            final(self).settled == old(self).settled,
            final(self).queue@.len() <= old(self).queue@.len() + 1,
            final(self).verts@ == old(self).verts@ || final(self).verts@ == old(self).verts@.push(y),
            final(self).index@.contains_key(y),
            final(self).dist@[final(self).index@[y] as int] <= alt,
            forall|i: int| #![trigger final(self).done@[i]] 0 <= i < old(self).verts@.len() ==> {
                &&& final(self).done@[i] == old(self).done@[i]
                &&& final(self).dist@[i] <= old(self).dist@[i]
                &&& old(self).done@[i] ==> final(self).dist@[i] == old(self).dist@[i]
            },
            forall|i: int| old(self).verts@.len() <= i < final(self).verts@.len() ==> !#[trigger] final(self).done@[i],
            forall|x: V| #[trigger] old(self).index@.contains_key(x) ==> final(self).index@.contains_key(x)
                && final(self).index@[x] == old(self).index@[x],
    {
        let ghost o = *self;
        match self.index.get(&y) {
            None => {
                let j = self.verts.len();
                self.verts.push(y);
                self.index.insert(y, j);
                self.dist.push(alt);
                self.prev.push(v);
                self.done.push(false);
                self.queue.push(DjikstraNode::new(alt, j));
                let _n = self.verts.len();
                proof {
                    self.rank@ = self.rank@.push(0);
                    assert(!o.settled@.contains(y));
                    assert forall|i: int| 0 <= i < self.verts@.len() implies #[trigger] self.index@.contains_key(self.verts@[i])
                        && self.index@[self.verts@[i]] == i by {
                        if i < j {
                            assert(o.index@.contains_key(o.verts@[i]));
                        }
                    }
                    assert forall|z: V| #[trigger] self.index@.contains_key(z) implies self.index@[z] < self.verts@.len()
                        && self.verts@[self.index@[z] as int] == z by {
                        if z != y {
                            assert(o.index@.contains_key(z));
                        }
                    }
                    assert forall|k: int| 0 <= k < self.queue@.len() implies (#[trigger] self.queue@[k]).priority
                        >= self.dist@[self.queue@[k].vertex as int] by {
                        if k < o.queue@.len() {
                            assert(o.queue@[k] == self.queue@[k]);
                        }
                    }
                    assert forall|jj: int| 0 <= jj < self.verts@.len() && !#[trigger] self.done@[jj] && jj != -1 implies has_entry(
                        self.queue@, self.dist@[jj], jj as usize) by {
                        if jj < j {
                            assert(has_entry(o.queue@, o.dist@[jj], jj as usize));
                            let k = choose|k: int| 0 <= k < o.queue@.len() && #[trigger] o.queue@[k] == DjikstraNode { priority: o.dist@[jj], vertex: jj as usize };
                            assert(self.queue@[k] == o.queue@[k]);
                        } else {
                            assert(self.queue@[o.queue@.len() as int] == DjikstraNode { priority: alt, vertex: j });
                        }
                    }
                    assert forall|jj: int| 0 <= jj < self.verts@.len() && #[trigger] self.done@[jj] && jj != v implies self.relaxed_from(wt, jj, nbrs(self.verts@[jj])) by {
                        assert(o.relaxed_from(wt, jj, nbrs(o.verts@[jj])));
                        assert forall|z: V| #[trigger] nbrs(self.verts@[jj]).contains(z) implies self.index@.contains_key(z)
                            && self.dist@[self.index@[z] as int] <= self.dist@[jj] + wt(self.verts@[jj], z) by {
                            assert(o.index@.contains_key(z));
                        }
                    }
                    assert(self.index@[y] == j);
                    assert forall|k: int| 0 <= k < self.queue@.len() implies (#[trigger] self.queue@[k]).vertex < self.verts@.len() by {
                        if k < o.queue@.len() {
                            assert(o.queue@[k] == self.queue@[k]);
                        }
                    }
                    assert forall|x: V| #[trigger] self.settled@.contains(x) implies self.index@.contains_key(x) by {
                        assert(o.index@.contains_key(x));
                    }
                    assert forall|i: int| 0 <= i < self.verts@.len() implies #[trigger] self.done@[i] == self.settled@.contains(self.verts@[i]) by {
                        if i < j {
                            assert(o.done@[i] == o.settled@.contains(o.verts@[i]));
                        }
                    }
                    assert forall|i: int| 0 <= i < self.verts@.len() && #[trigger] self.done@[i] implies self.rank@[i] < self.settled@.len() by {
                        assert(o.done@[i]);
                    }
                    assert(self.wf());
                }
            },
            Some(jr) => {
                let j = *jr;
                proof {
                    assert(o.index@.contains_key(y));
                }
                if alt < self.dist[j] {
                    self.dist.set(j, alt);
                    self.prev.set(j, v);
                    self.queue.push(DjikstraNode::new(alt, j));
                    proof {
                        assert(!o.done@[j as int]);
                        assert forall|k: int| 0 <= k < self.queue@.len() implies (#[trigger] self.queue@[k]).vertex < self.verts@.len() by {
                            if k < o.queue@.len() {
                                assert(o.queue@[k] == self.queue@[k]);
                            }
                        }
                        assert(self.wf());
                        assert forall|k: int| 0 <= k < self.queue@.len() implies (#[trigger] self.queue@[k]).priority
                            >= self.dist@[self.queue@[k].vertex as int] by {
                            if k < o.queue@.len() {
                                assert(o.queue@[k] == self.queue@[k]);
                            }
                        }
                        assert forall|jj: int| 0 <= jj < self.verts@.len() && !#[trigger] self.done@[jj] && jj != -1 implies has_entry(
                            self.queue@, self.dist@[jj], jj as usize) by {
                            if jj != j {
                                assert(has_entry(o.queue@, o.dist@[jj], jj as usize));
                                let k = choose|k: int| 0 <= k < o.queue@.len() && #[trigger] o.queue@[k] == DjikstraNode { priority: o.dist@[jj], vertex: jj as usize };
                                assert(self.queue@[k] == o.queue@[k]);
                            } else {
                                assert(self.queue@[o.queue@.len() as int] == DjikstraNode { priority: alt, vertex: j });
                            }
                        }
                        assert forall|jj: int| #![trigger self.prev@[jj]] 0 < jj < self.verts@.len() implies {
                            let i = self.prev@[jj] as int;
                            &&& 0 <= i < self.verts@.len()
                            &&& self.done@[i]
                            &&& nbrs(self.verts@[i]).contains(self.verts@[jj])
                            &&& self.dist@[jj] == self.dist@[i] + wt(self.verts@[i], self.verts@[jj])
                            &&& self.done@[jj] ==> self.rank@[i] < self.rank@[jj]
                        } by {
                            if jj != j {
                                assert(o.prev@[jj] == self.prev@[jj]);
                                assert(o.done@[o.prev@[jj] as int]);
                            }
                        }
                        assert forall|jj: int| 0 <= jj < self.verts@.len() && #[trigger] self.done@[jj] implies forall|q: Seq<V>|
                            is_walk_between(nbrs, q, start, self.verts@[jj]) ==> self.dist@[jj] <= walk_cost(wt, q) by {
                            assert(jj != j);
                        }
                        assert forall|u: int, jj: int|
                            0 <= u < self.verts@.len() && 0 <= jj < self.verts@.len() && #[trigger] self.done@[u] && !#[trigger] self.done@[jj]
                            implies self.dist@[u] <= self.dist@[jj] by {
                            assert(u != j);
                        }
                        assert forall|jj: int| 0 <= jj < self.verts@.len() && #[trigger] self.done@[jj] && jj != v implies self.relaxed_from(wt, jj, nbrs(self.verts@[jj])) by {
                            assert(o.relaxed_from(wt, jj, nbrs(o.verts@[jj])));
                            assert(jj != j);
                        }
                    }
                }
            },
        }
    }

    /// The vertices from the finished vertex `e` back to the start, by way of `prev`.
    fn path_to(&self, e: usize, Ghost(nbrs): Ghost<spec_fn(V) -> Seq<V>>, Ghost(wt): Ghost<spec_fn(V, V) -> nat>, Ghost(start): Ghost<V>) -> (p: Vec<V>)
        requires
            self.wf(),
            self.sound(nbrs, wt, start),
            e < self.verts@.len(),
            self.done@[e as int],
        ensures
            is_walk_between(nbrs, p@.reverse(), start, self.verts@[e as int]),
            walk_cost(wt, p@.reverse()) == self.dist@[e as int],
            p@.no_duplicates(),
    {
        let mut path: Vec<V> = Vec::new();
        path.push(self.verts[e]);
        let mut cur = e;
        let ghost mut idxs: Seq<int> = seq![e as int];
        proof {
            assert(path@.reverse() =~= seq![self.verts@[e as int]]);
        }
        while cur != 0
            invariant
                self.wf(),
                self.sound(nbrs, wt, start),
                e < self.verts@.len(),
                cur < self.verts@.len(),
                self.done@[cur as int],
                is_walk_between(nbrs, path@.reverse(), self.verts@[cur as int], self.verts@[e as int]),
                walk_cost(wt, path@.reverse()) + self.dist@[cur as int] == self.dist@[e as int],
                idxs.len() == path@.len(),
                idxs.last() == cur,
                forall|t: int| 0 <= t < idxs.len() ==> 0 <= #[trigger] idxs[t] < self.verts@.len()
                    && path@[t] == self.verts@[idxs[t]],
                forall|t1: int, t2: int| 0 <= t1 < t2 < idxs.len() ==> self.rank@[#[trigger] idxs[t1]] > self.rank@[#[trigger] idxs[t2]],
            decreases self.rank@[cur as int],
        {
            let p = self.prev[cur];
            proof {
                let fwd = path@.reverse();
                lemma_prepend(nbrs, wt, self.verts@[p as int], fwd);
                assert(path@.push(self.verts@[p as int]).reverse() =~= seq![self.verts@[p as int]] + fwd);
            }
            path.push(self.verts[p]);
            proof {
                let old_idxs = idxs;
                idxs = idxs.push(p as int);
                assert forall|t1: int, t2: int| 0 <= t1 < t2 < idxs.len() implies self.rank@[#[trigger] idxs[t1]] > self.rank@[#[trigger] idxs[t2]] by {
                    if t2 == idxs.len() - 1 {
                        if t1 < old_idxs.len() - 1 {
                            assert(self.rank@[old_idxs[t1]] > self.rank@[old_idxs[old_idxs.len() - 1]]);
                        }
                    } else {
                        assert(old_idxs[t1] == idxs[t1] && old_idxs[t2] == idxs[t2]);
                    }
                }
            }
            cur = p;
        }
        proof {
            assert forall|t1: int, t2: int| 0 <= t1 < t2 < path@.len() implies path@[t1] != path@[t2] by {
                assert(self.rank@[idxs[t1]] > self.rank@[idxs[t2]]);
                assert(self.index@.contains_key(self.verts@[idxs[t1]]));
                assert(self.index@.contains_key(self.verts@[idxs[t2]]));
            }
        }
        path
    }

    proof fn lemma_settled_len(&self)
        requires
            self.wf(),
        ensures
            self.settled@.len() <= usize::MAX,
    {
        let vs = self.verts@.to_set();
        assert(self.settled@.subset_of(vs)) by {
            assert forall|y: V| #[trigger] self.settled@.contains(y) implies vs.contains(y) by {
                assert(self.verts@[self.index@[y] as int] == y);
            }
        }
        self.verts@.lemma_cardinality_of_set();
        vstd::set_lib::lemma_len_subset(self.settled@, vs);
    }

    proof fn lemma_settled_bound(&self, v: int)
        requires
            self.wf(),
            0 <= v < self.verts@.len(),
            !self.done@[v],
        ensures
            self.settled@.len() < self.verts@.len(),
    {
        let vs = self.verts@.to_set();
        let x = self.verts@[v];
        assert(self.settled@.subset_of(vs.remove(x))) by {
            assert forall|y: V| #[trigger] self.settled@.contains(y) implies vs.remove(x).contains(y) by {
                let i = self.index@[y] as int;
                assert(self.verts@[i] == y);
                assert(self.done@[i]);
            }
        }
        self.verts@.lemma_cardinality_of_set();
        vstd::set_lib::lemma_len_subset(self.settled@, vs.remove(x));
    }

    /// Along any walk from the start, up to its `k`-th vertex: either that vertex is finished,
    /// or some unfinished vertex is recorded at no more than the cost of the walk so far.
    proof fn lemma_frontier(&self, nbrs: spec_fn(V) -> Seq<V>, wt: spec_fn(V, V) -> nat, start: V, q: Seq<V>, k: int)
        requires
            self.wf(),
            self.sound(nbrs, wt, start),
            self.relaxed(nbrs, wt, -1),
            is_walk(nbrs, q),
            q[0] == start,
            0 <= k < q.len(),
        ensures
            (self.index@.contains_key(q[k]) && self.done@[self.index@[q[k]] as int]) || exists|j: int|
                0 <= j < self.verts@.len() && !#[trigger] self.done@[j] && self.dist@[j] <= walk_cost(
                    wt,
                    q.take(k + 1),
                ),
        decreases k,
    {
        if k == 0 {
            assert(self.index@.contains_key(self.verts@[0]));
            if !self.done@[0] {
                assert(!self.done@[0] && self.dist@[0] <= walk_cost(wt, q.take(1)));
            }
        } else {
            self.lemma_frontier(nbrs, wt, start, q, k - 1);
            let qk = q.take(k + 1);
            assert(qk.drop_last() =~= q.take(k));
            assert(walk_cost(wt, qk) == walk_cost(wt, q.take(k)) + wt(q[k - 1], q[k]));
            if self.index@.contains_key(q[k - 1]) && self.done@[self.index@[q[k - 1]] as int] {
                let i = self.index@[q[k - 1]] as int;
                let a = k - 1;
                assert(nbrs(q[a]).contains(q[a + 1]));
                assert(self.relaxed_from(wt, i, nbrs(self.verts@[i])));
                assert(nbrs(self.verts@[i]).contains(q[k]));
                lemma_prefix_walk(nbrs, q, k);
                assert(is_walk_between(nbrs, q.take(k), start, self.verts@[i]));
                let j = self.index@[q[k]] as int;
                if !self.done@[j] {
                    assert(!self.done@[j] && self.dist@[j] <= walk_cost(wt, qk));
                }
            } else {
                let j = choose|j: int|
                    0 <= j < self.verts@.len() && !#[trigger] self.done@[j] && self.dist@[j] <= walk_cost(
                        wt,
                        q.take(k),
                    );
                lemma_prefix_cost(wt, qk, k);
                assert(qk.take(k) =~= q.take(k));
                assert(!self.done@[j] && self.dist@[j] <= walk_cost(wt, qk));
            }
        }
    }

    /// A vertex that no queued entry undercuts is recorded at its true distance.
    proof fn lemma_optimal(&self, nbrs: spec_fn(V) -> Seq<V>, wt: spec_fn(V, V) -> nat, start: V, v: int)
        requires
            self.wf(),
            self.sound(nbrs, wt, start),
            self.queued(v),
            self.relaxed(nbrs, wt, -1),
            0 <= v < self.verts@.len(),
            !self.done@[v],
            forall|k: int| 0 <= k < self.queue@.len() ==> self.dist@[v] <= (#[trigger] self.queue@[k]).priority,
        ensures
            forall|q: Seq<V>|
                is_walk_between(nbrs, q, start, self.verts@[v]) ==> self.dist@[v] <= walk_cost(wt, q),
    {
        assert forall|q: Seq<V>| is_walk_between(nbrs, q, start, self.verts@[v]) implies self.dist@[v]
            <= walk_cost(wt, q) by {
            self.lemma_frontier(nbrs, wt, start, q, q.len() - 1);
            assert(q.take(q.len() as int) =~= q);
            assert(self.index@.contains_key(self.verts@[v]));
            let j = choose|j: int|
                0 <= j < self.verts@.len() && !#[trigger] self.done@[j] && self.dist@[j] <= walk_cost(wt, q);
            if j != v {
                assert(has_entry(self.queue@, self.dist@[j], j as usize));
                let k = choose|k: int|
                    0 <= k < self.queue@.len() && #[trigger] self.queue@[k] == DjikstraNode {
                        priority: self.dist@[j],
                        vertex: j as usize,
                    };
                assert(self.dist@[v] <= self.queue@[k].priority);
            }
        }
    }

    /// When vertex `e` is next to finish, every vertex that some walk reaches more cheaply
    /// has already finished.
    proof fn lemma_closer_settled(&self, nbrs: spec_fn(V) -> Seq<V>, wt: spec_fn(V, V) -> nat, start: V, e: int, x: V)
        requires
            self.wf(),
            self.sound(nbrs, wt, start),
            self.queued(e),
            self.relaxed(nbrs, wt, -1),
            0 <= e < self.verts@.len(),
            !self.done@[e],
            forall|k: int| 0 <= k < self.queue@.len() ==> self.dist@[e] <= (#[trigger] self.queue@[k]).priority,
            closer_than(nbrs, wt, start, x, self.dist@[e] as nat),
        ensures
            self.settled@.contains(x),
    {
        let q = choose|q: Seq<V>| is_walk_between(nbrs, q, start, x) && walk_cost(wt, q) < self.dist@[e] as nat;
        self.lemma_frontier(nbrs, wt, start, q, q.len() - 1);
        assert(q.take(q.len() as int) =~= q);
        if self.index@.contains_key(x) && self.done@[self.index@[x] as int] {
            assert(self.verts@[self.index@[x] as int] == x);
        } else {
            let j = choose|j: int|
                0 <= j < self.verts@.len() && !#[trigger] self.done@[j] && self.dist@[j] <= walk_cost(wt, q.take(q.len() as int));
            if j != e {
                assert(has_entry(self.queue@, self.dist@[j], j as usize));
                let k = choose|k: int|
                    0 <= k < self.queue@.len() && #[trigger] self.queue@[k] == DjikstraNode {
                        priority: self.dist@[j],
                        vertex: j as usize,
                    };
                assert(self.dist@[e] <= self.queue@[k].priority);
            }
        }
    }

    /// With nothing queued, the goal cannot be reached.
    proof fn lemma_exhausted(&self, nbrs: spec_fn(V) -> Seq<V>, wt: spec_fn(V, V) -> nat, start: V, end: V)
        requires
            self.wf(),
            self.sound(nbrs, wt, start),
            self.queued(-1),
            self.relaxed(nbrs, wt, -1),
            self.end_open(end),
            self.queue@.len() == 0,
        ensures
            !reachable(nbrs, start, end),
    {
        if reachable(nbrs, start, end) {
            let q = choose|q: Seq<V>| is_walk_between(nbrs, q, start, end);
            self.lemma_frontier(nbrs, wt, start, q, q.len() - 1);
            if exists|j: int|
                0 <= j < self.verts@.len() && !#[trigger] self.done@[j] && self.dist@[j] <= walk_cost(
                    wt,
                    q.take(q.len() as int),
                ) {
                let j = choose|j: int|
                    0 <= j < self.verts@.len() && !#[trigger] self.done@[j] && self.dist@[j] <= walk_cost(
                        wt,
                        q.take(q.len() as int),
                    );
                assert(has_entry(self.queue@, self.dist@[j], j as usize));
            }
        }
    }
}

/// The search, with an optional bound on how many entries it may take from the queue.
/// Without the bound, `univ` is a finite set closed under `adjacent` that holds `start`.
pub(crate) fn search<V, C, A>(
    cost: C,
    adjacent: A,
    start: V,
    end: V,
    limit: Option<usize>,
    Ghost(nbrs): Ghost<spec_fn(V) -> Seq<V>>,
    Ghost(wt): Ghost<spec_fn(V, V) -> nat>,
    Ghost(univ): Ghost<Set<V>>,
) -> (r: Option<Vec<V>>)
    where
        V: Copy + Eq + Hash,
        C: Fn(V, V) -> u64,
        A: Fn(V) -> Vec<V>,
    requires
        obeys_key_model::<V>(),
        start != end ==> describes(cost, adjacent, nbrs, wt),
        limit is None && start != end ==> closed_finite(nbrs, univ, start),
    ensures
        match r {
            Some(p) => is_shortest(nbrs, wt, p@.reverse(), start, end) && p@.no_duplicates(),
            None => limit is None ==> !reachable(nbrs, start, end),
        },
        start == end && (limit matches Some(m) ==> m > 0) ==> (r matches Some(p) && p@ == seq![end]),
        limit matches Some(m) ==> forall|vs: Seq<V>|
            closed_listing(nbrs, vs, start) && #[trigger] degree_sum(nbrs, vs) < m
                ==> (r is Some <==> reachable(nbrs, start, end)),
        limit matches Some(m) ==> (r matches Some(p) ==> forall|s: Set<V>|
            s.finite() && #[trigger] all_closer(nbrs, wt, start, s, walk_cost(wt, p@.reverse())) ==> s.len() < m),
{
    match limit {
        Some(m) => {
            if m == 0 {
                return None;
            }
        },
        None => {},
    }
    let mut state = Search::new(start);
    if state.index.contains_key(&end) {
        let mut p: Vec<V> = Vec::new();
        p.push(end);
        proof {
            assert(end == start);
            assert(p@.reverse() =~= seq![start]);
            assert forall|q: Seq<V>| is_walk_between(nbrs, q, start, end) implies walk_cost(wt, p@.reverse()) <= walk_cost(wt, q) by {}
            assert(is_walk_between(nbrs, p@.reverse(), start, end));
            assert forall|s: Set<V>| s.finite() && #[trigger] all_closer(nbrs, wt, start, s, walk_cost(wt, p@.reverse())) implies s.len() == 0 by {
                assert(s =~= Set::<V>::empty());
            }
        }
        return Some(p);
    }
    let mut pops: usize = 0;
    let ghost mut order: Seq<V> = Seq::empty();
    proof {
        assert(is_walk_between(nbrs, seq![start], start, start));
        assert(state.verts@[0] == start);
        assert(degree_sum(nbrs, order) == 0);
    }
    loop
        invariant
            obeys_key_model::<V>(),
            describes(cost, adjacent, nbrs, wt),
            start != end,
            state.wf(),
            state.sound(nbrs, wt, start),
            state.queued(-1),
            state.relaxed(nbrs, wt, -1),
            state.end_open(end),
            limit matches Some(m) ==> pops <= m,
            limit is None ==> closed_finite(nbrs, univ, start),
            limit is None ==> forall|i: int| 0 <= i < state.verts@.len() ==> univ.contains(#[trigger] state.verts@[i]),
            order.no_duplicates(),
            forall|x: V| #![trigger order.contains(x)] #![trigger state.settled@.contains(x)] order.contains(x) == state.settled@.contains(x),
            pops + state.queue@.len() <= 1 + degree_sum(nbrs, order),
            limit is Some ==> order.len() <= pops,
            forall|i: int| 0 <= i < state.verts@.len() ==> reachable(nbrs, start, #[trigger] state.verts@[i]),
        decreases
            match limit { Some(m) => m - pops, None => 0 },
            match limit { Some(_) => 0, None => univ.len() - state.settled@.len() },
            state.queue@.len(),
    {
        if state.queue.len() == 0 {
            proof {
                state.lemma_exhausted(nbrs, wt, start, end);
            }
            return None;
        }
        match limit {
            Some(m) => {
                if pops >= m {
                    proof {
                        assert forall|vs: Seq<V>| closed_listing(nbrs, vs, start) implies #[trigger] degree_sum(nbrs, vs) >= m by {
                            assert forall|x: V| #[trigger] order.contains(x) implies vs.contains(x) by {
                                assert(state.settled@.contains(x));
                                let i = state.index@[x] as int;
                                assert(state.verts@[i] == x);
                                lemma_closed_holds_reachable(nbrs, Set::new(|y: V| vs.contains(y)), start, x);
                            }
                            lemma_degree_sum_subset(nbrs, order, vs);
                        }
                    }
                    return None;
                }
                pops = pops + 1;
            },
            None => {},
        }
        proof {
            if limit is None {
                assert(state.settled@.subset_of(univ)) by {
                    assert forall|x: V| #[trigger] state.settled@.contains(x) implies univ.contains(x) by {
                        assert(state.verts@[state.index@[x] as int] == x);
                    }
                }
                vstd::set_lib::lemma_len_subset(state.settled@, univ);
            }
        }
        let ghost q0 = state.queue@;
        let ghost st0 = state;
        let node = state.take_min();
        let v = node.vertex;
        if state.done[v] || node.priority > state.dist[v] {
            proof {
                assert forall|j: int| 0 <= j < state.verts@.len() && !#[trigger] state.done@[j] && j != -1 implies has_entry(
                    state.queue@, state.dist@[j], j as usize) by {
                    assert(!st0.done@[j]);
                    assert(has_entry(q0, state.dist@[j], j as usize));
                    assert(!(state.dist@[j] == node.priority && j as usize == node.vertex));
                }
            }
            continue;
        }
        proof {
            assert forall|j: int| 0 <= j < state.verts@.len() && !#[trigger] state.done@[j] && j != v implies has_entry(
                state.queue@, state.dist@[j], j as usize) by {
                assert(!st0.done@[j]);
                assert(has_entry(q0, state.dist@[j], j as usize));
                assert(!(state.dist@[j] == node.priority && j as usize == node.vertex));
            }
            assert forall|k: int| 0 <= k < state.queue@.len() implies state.dist@[v as int] <= (#[trigger] state.queue@[k]).priority by {
                let kk = choose|kk: int| 0 <= kk < q0.len() && #[trigger] q0[kk] == state.queue@[k];
                assert(node.priority <= q0[kk].priority);
            }
        }
        let ghost before = state.settled@;
        let ghost st1 = state;
        let ghost order0 = order;
        state.settle(v, Ghost(nbrs), Ghost(wt), Ghost(start));
        let ghost after = state.settled@;
        proof {
            assert(!before.contains(state.verts@[v as int]));
            assert(after.len() == before.len() + 1);
            order = order.push(state.verts@[v as int]);
            assert(order.drop_last() =~= order0);
            assert(order.no_duplicates()) by {
                assert forall|a: int, b: int| 0 <= a < b < order.len() implies order[a] != order[b] by {
                    if b == order.len() - 1 {
                        assert(order0.contains(order0[a]));
                    } else {
                        assert(order0[a] == order[a] && order0[b] == order[b]);
                    }
                }
            }
            assert forall|x: V| #![trigger order.contains(x)] #![trigger state.settled@.contains(x)] order.contains(x) == state.settled@.contains(x) by {
                if order.contains(x) && x != state.verts@[v as int] {
                    let a = choose|a: int| 0 <= a < order.len() && order[a] == x;
                    assert(order0[a] == x);
                }
                if order0.contains(x) {
                    let a = choose|a: int| 0 <= a < order0.len() && order0[a] == x;
                    assert(order[a] == x);
                }
                assert(order[order.len() - 1] == state.verts@[v as int]);
            }
            if limit is None {
                assert(after.subset_of(univ));
                vstd::set_lib::lemma_len_subset(after, univ);
            }
        }
        let is_end = match state.index.get(&end) {
            Some(j) => *j == v,
            None => false,
        };
        if is_end {
            let p = state.path_to(v, Ghost(nbrs), Ghost(wt), Ghost(start));
            proof {
                assert(state.index@.contains_key(end));
                assert(state.verts@[v as int] == end);
                assert(state.done@[v as int]);
                if limit is Some {
                    let m = limit->0;
                    assert forall|s: Set<V>| s.finite() && #[trigger] all_closer(nbrs, wt, start, s, walk_cost(wt, p@.reverse())) implies s.len() < m by {
                        assert forall|x: V| #[trigger] s.contains(x) implies before.contains(x) by {
                            st1.lemma_closer_settled(nbrs, wt, start, v as int, x);
                        }
                        assert(before =~= order0.to_set());
                        order0.lemma_cardinality_of_set();
                        vstd::set_lib::lemma_len_subset(s, before);
                    }
                }
            }
            return Some(p);
        }
        let u = state.verts[v];
        let ns = adjacent(u);
        let mut k: usize = 0;
        while k < ns.len()
            invariant
                obeys_key_model::<V>(),
                describes(cost, adjacent, nbrs, wt),
                start != end,
                state.wf(),
                state.sound(nbrs, wt, start),
                state.queued(-1),
                state.relaxed(nbrs, wt, v as int),
                state.end_open(end),
                v < state.verts@.len(),
                state.done@[v as int],
                state.verts@[v as int] == u,
                ns@ == nbrs(u),
                k <= ns@.len(),
                forall|i: int| 0 <= i < state.verts@.len() && #[trigger] state.done@[i] ==> state.dist@[i] <= state.dist@[v as int],
                state.dist@[v as int] + MAX_STEP <= state.settled@.len() * MAX_STEP,
                state.relaxed_from(wt, v as int, ns@.take(k as int)),
                state.settled@ == after,
                forall|x: V| #![trigger order.contains(x)] #![trigger state.settled@.contains(x)] order.contains(x) == state.settled@.contains(x),
                order.no_duplicates(),
                pops + state.queue@.len() + (ns@.len() - k) <= 1 + degree_sum(nbrs, order),
                limit is Some ==> order.len() <= pops,
                limit matches Some(m) ==> pops <= m,
                forall|i: int| 0 <= i < state.verts@.len() ==> reachable(nbrs, start, #[trigger] state.verts@[i]),
                limit is None ==> closed_finite(nbrs, univ, start),
                limit is None ==> forall|i: int| 0 <= i < state.verts@.len() ==> univ.contains(#[trigger] state.verts@[i]),
            decreases ns@.len() - k,
        {
            let y = ns[k];
            proof {
                assert(ns@.contains(y)) by {
                    assert(ns@[k as int] == y);
                }
            }
            let c = cost(u, y);
            proof {
                state.lemma_settled_len();
            }
            let alt = state.dist[v] + c as u128;
            let ghost s0 = state;
            state.relax(v, y, alt, Ghost(nbrs), Ghost(wt), Ghost(start));
            proof {
                assert(state.done@[v as int] == s0.done@[v as int]);
                assert(state.dist@[v as int] == s0.dist@[v as int]);
                assert forall|z: V| #[trigger] ns@.take(k + 1).contains(z) implies state.index@.contains_key(z)
                    && state.dist@[state.index@[z] as int] <= state.dist@[v as int] + wt(u, z) by {
                    assert(state.done@[v as int] == s0.done@[v as int]);
                    assert(state.dist@[v as int] == s0.dist@[v as int]);
                    if z == y {
                        assert(c as nat == wt(u, y));
                    } else {
                        assert(ns@.take(k as int).contains(z)) by {
                            let i = choose|i: int| 0 <= i < k + 1 && #[trigger] ns@.take(k + 1)[i] == z;
                            assert(ns@.take(k as int)[i] == z);
                        }
                        assert(s0.index@.contains_key(z));
                        let iz = s0.index@[z] as int;
                        assert(s0.dist@[iz] <= s0.dist@[v as int] + wt(u, z));
                        assert(state.done@[iz] == s0.done@[iz]);
                        assert(state.index@[z] as int == iz);
                    }
                }
                assert forall|i: int| 0 <= i < state.verts@.len() implies reachable(nbrs, start, #[trigger] state.verts@[i]) by {
                    if i >= s0.verts@.len() {
                        assert(state.verts@[i] == y);
                        assert(reachable(nbrs, start, s0.verts@[v as int]));
                        let q = choose|q: Seq<V>| is_walk_between(nbrs, q, start, s0.verts@[v as int]);
                        lemma_walk_push(nbrs, q, y);
                        assert(is_walk_between(nbrs, q.push(y), start, y));
                    } else {
                        assert(reachable(nbrs, start, s0.verts@[i]));
                    }
                }
                if limit is None {
                    assert forall|i: int| 0 <= i < state.verts@.len() implies univ.contains(#[trigger] state.verts@[i]) by {
                        if i >= s0.verts@.len() {
                            assert(nbrs(u).contains(y));
                        } else {
                            assert(univ.contains(s0.verts@[i]));
                        }
                    }
                }
                if state.index@.contains_key(end) {
                    if s0.index@.contains_key(end) {
                        assert(state.done@[s0.index@[end] as int] == s0.done@[s0.index@[end] as int]);
                    }
                }
                assert forall|i: int| 0 <= i < state.verts@.len() && #[trigger] state.done@[i] implies state.dist@[i] <= state.dist@[v as int] by {
                    assert(state.done@[v as int] == s0.done@[v as int]);
                    if i < s0.verts@.len() {
                        assert(state.done@[i] == s0.done@[i]);
                        assert(s0.done@[i]);
                    }
                }
            }
            k = k + 1;
        }
        proof {
            assert(ns@.take(k as int) =~= ns@);
            assert forall|j: int| 0 <= j < state.verts@.len() && #[trigger] state.done@[j] && j != -1 implies state.relaxed_from(wt, j, nbrs(state.verts@[j])) by {}
        }
    }
}

/// Dijkstra's algorithm. `cost` gives the weight of a step from a vertex to one of the
/// neighbours that `adjacent` lists for it. Returns the vertices of a cheapest walk from
/// `start` to `end`, listed from `end` back to `start` with no vertex twice, or `None` when
/// `end` cannot be reached. Unless `start` is `end`, the closures must describe one graph
/// and the part of it reachable from `start` must be finite.
pub fn djikstra<V, C, A>(cost: C, adjacent: A, start: V, end: V) -> (r: Option<Vec<V>>)
    where
        V: Copy + Eq + Hash,
        C: Fn(V, V) -> u64,
        A: Fn(V) -> Vec<V>,
    requires
        obeys_key_model::<V>(),
        start != end ==> well_behaved(cost, adjacent),
        start != end ==> finite_from(neighbours_of(adjacent), start),
    ensures
        r is Some <==> reachable(neighbours_of(adjacent), start, end),
        r matches Some(p) ==> is_shortest(neighbours_of(adjacent), weights_of(cost), p@.reverse(), start, end),
        r matches Some(p) ==> p@.no_duplicates(),
        start == end ==> (r matches Some(p) && p@ == seq![end]),
{
    djikstra_on(cost, adjacent, start, end, Ghost(neighbours_of(adjacent)), Ghost(weights_of(cost)))
}

/// [`djikstra`] on a graph given by the neighbour function `nbrs` and the weight function
/// `wt`, which the two closures are to follow.
pub fn djikstra_on<V, C, A>(
    cost: C,
    adjacent: A,
    start: V,
    end: V,
    Ghost(nbrs): Ghost<spec_fn(V) -> Seq<V>>,
    Ghost(wt): Ghost<spec_fn(V, V) -> nat>,
) -> (r: Option<Vec<V>>)
    where
        V: Copy + Eq + Hash,
        C: Fn(V, V) -> u64,
        A: Fn(V) -> Vec<V>,
    requires
        obeys_key_model::<V>(),
        start != end ==> describes(cost, adjacent, nbrs, wt),
        start != end ==> finite_from(nbrs, start),
    ensures
        r is Some <==> reachable(nbrs, start, end),
        r matches Some(p) ==> is_shortest(nbrs, wt, p@.reverse(), start, end),
        r matches Some(p) ==> p@.no_duplicates(),
        start == end ==> (r matches Some(p) && p@ == seq![end]),
{
    let ghost univ = choose|univ: Set<V>| closed_finite(nbrs, univ, start);
    let r = search(cost, adjacent, start, end, None, Ghost(nbrs), Ghost(wt), Ghost(univ));
    proof {
        if r is Some {
            assert(is_walk_between(nbrs, r->0@.reverse(), start, end));
        }
    }
    r
}

/// Dijkstra's algorithm that gives up, returning `None`, rather than take a queue entry
/// beyond the first `max_iters`. A path it returns is a cheapest one, as with [`djikstra`];
/// the graph may be infinite. It finds the path whenever some set closed under `adjacent`
/// that holds `start` has fewer than `max_iters` arcs leaving its vertices, and a path it
/// returns costs more than any walk to fewer than `max_iters` distinct vertices.
pub fn djikstra_capped<V, C, A>(cost: C, adjacent: A, start: V, end: V, max_iters: usize) -> (r: Option<Vec<V>>)
    where
        V: Copy + Eq + Hash,
        C: Fn(V, V) -> u64,
        A: Fn(V) -> Vec<V>,
    requires
        obeys_key_model::<V>(),
        well_behaved(cost, adjacent),
    ensures
        r matches Some(p) ==> is_shortest(neighbours_of(adjacent), weights_of(cost), p@.reverse(), start, end),
        r matches Some(p) ==> p@.no_duplicates(),
        !reachable(neighbours_of(adjacent), start, end) ==> r is None,
        start == end && max_iters > 0 ==> (r matches Some(p) && p@ == seq![end]),
        forall|vs: Seq<V>|
            closed_listing(neighbours_of(adjacent), vs, start) && #[trigger] degree_sum(neighbours_of(adjacent), vs) < max_iters
                ==> (r is Some <==> reachable(neighbours_of(adjacent), start, end)),
        r matches Some(p) ==> forall|s: Set<V>|
            s.finite() && #[trigger] all_closer(neighbours_of(adjacent), weights_of(cost), start, s, walk_cost(weights_of(cost), p@.reverse()))
                ==> s.len() < max_iters,
{
    let r = search(cost, adjacent, start, end, Some(max_iters), Ghost(neighbours_of(adjacent)), Ghost(weights_of(cost)), Ghost(Set::empty()));
    proof {
        if r is Some {
            assert(is_walk_between(neighbours_of(adjacent), r->0@.reverse(), start, end));
        }
    }
    r
}

} // verus!
