//! An undirected weighted graph built from a list of edges, and searches over it.
use crate::djikstra::{describes, search};
use crate::graph::{closed_finite, is_shortest, reachable};
use std::collections::HashMap;
use std::hash::Hash;
use vstd::prelude::*;
use vstd::std_specs::hash::obeys_key_model;

verus! {

broadcast use vstd::std_specs::hash::group_hash_axioms;

/// `m` with the arc `a -> b` of weight `w` added, replacing an earlier weight of that arc.
pub open spec fn add_arc<V>(m: Map<V, Map<V, u64>>, a: V, b: V, w: u64) -> Map<V, Map<V, u64>> {
    let row = if m.contains_key(a) {
        m[a]
    } else {
        Map::empty()
    };
    m.insert(a, row.insert(b, w))
}

/// The adjacency of an edge list: each edge `(a, b, w)` in turn sets the weight of both
/// `a -> b` and `b -> a` to `w`.
pub open spec fn adj_model<V>(edges: Seq<(V, V, u64)>) -> Map<V, Map<V, u64>>
    decreases edges.len(),
{
    if edges.len() == 0 {
        Map::empty()
    } else {
        let (a, b, w) = edges.last();
        add_arc(add_arc(adj_model(edges.drop_last()), a, b, w), b, a, w)
    }
}

/// Every arc of `m` has its reverse, with the same weight.
pub open spec fn symmetric<V>(m: Map<V, Map<V, u64>>) -> bool {
    forall|a: V, b: V|
        m.contains_key(a) && #[trigger] m[a].contains_key(b) ==> m.contains_key(b) && m[b].contains_key(a)
            && m[b][a] == m[a][b]
}

/// Adding an edge in both directions keeps a map symmetric.
proof fn lemma_add_edge_symmetric<V>(m: Map<V, Map<V, u64>>, a: V, b: V, w: u64)
    requires
        symmetric(m),
    ensures
        symmetric(add_arc(add_arc(m, a, b, w), b, a, w)),
{
    let m2 = add_arc(add_arc(m, a, b, w), b, a, w);
    assert forall|x: V, y: V| m2.contains_key(x) && #[trigger] m2[x].contains_key(y) implies m2.contains_key(y)
        && m2[y].contains_key(x) && m2[y][x] == m2[x][y] by {
        if !((x == a && y == b) || (x == b && y == a)) {
            assert(m.contains_key(x) && m[x].contains_key(y));
        }
    }
}

/// The adjacency of any edge list is symmetric.
pub proof fn lemma_model_symmetric<V>(edges: Seq<(V, V, u64)>)
    ensures
        symmetric(adj_model(edges)),
    decreases edges.len(),
{
    if edges.len() > 0 {
        lemma_model_symmetric(edges.drop_last());
        let (a, b, w) = edges.last();
        lemma_add_edge_symmetric(adj_model(edges.drop_last()), a, b, w);
    }
}

/// Whether two edges join the same two vertices, in either direction.
pub open spec fn same_pair<V>(e: (V, V, u64), f: (V, V, u64)) -> bool {
    (e.0 == f.0 && e.1 == f.1) || (e.0 == f.1 && e.1 == f.0)
}

/// Each edge of the list leaves both of its vertices neighbours of each other.
pub proof fn lemma_edge_present<V>(edges: Seq<(V, V, u64)>, i: int)
    requires
        0 <= i < edges.len(),
    ensures
        adj_model(edges).contains_key(edges[i].0),
        adj_model(edges)[edges[i].0].contains_key(edges[i].1),
        adj_model(edges).contains_key(edges[i].1),
        adj_model(edges)[edges[i].1].contains_key(edges[i].0),
    decreases edges.len(),
{
    if i < edges.len() - 1 {
        lemma_edge_present(edges.drop_last(), i);
    }
}

/// An edge that no later edge of the list joins again gives both directions its weight.
pub proof fn lemma_edge_weight<V>(edges: Seq<(V, V, u64)>, i: int)
    requires
        0 <= i < edges.len(),
        forall|j: int| i < j < edges.len() ==> !same_pair(#[trigger] edges[j], edges[i]),
    ensures
        adj_model(edges)[edges[i].0][edges[i].1] == edges[i].2,
        adj_model(edges)[edges[i].1][edges[i].0] == edges[i].2,
    decreases edges.len(),
{
    if i < edges.len() - 1 {
        let rest = edges.drop_last();
        assert forall|j: int| i < j < rest.len() implies !same_pair(#[trigger] rest[j], rest[i]) by {
            assert(rest[j] == edges[j]);
        }
        lemma_edge_weight(rest, i);
        lemma_edge_present(rest, i);
        assert(!same_pair(edges[edges.len() - 1], edges[i]));
    }
}

/// The neighbours of one vertex: their weights, and the order in which they were added.
#[verifier::reject_recursive_types(V)]
struct Row<V> {
    weights: HashMap<V, u64>,
    order: Vec<V>,
}

/// A weighted adjacency map: for each vertex, the weight of each arc that leaves it.
#[verifier::reject_recursive_types(V)]
pub struct AdjMap<V> {
    rows: HashMap<V, Row<V>>,
}

impl<V> View for AdjMap<V> {
    type V = Map<V, Map<V, u64>>;

    closed spec fn view(&self) -> Map<V, Map<V, u64>> {
        Map::new(|a: V| self.rows@.contains_key(a), |a: V| self.rows@[a].weights@)
    }
}

impl<V> AdjMap<V> {
    /// Each row lists each of its neighbours once, and every neighbour has a row.
    pub closed spec fn wf(&self) -> bool {
        &&& self.rows_wf()
        &&& forall|a: V, b: V|
            self.rows@.contains_key(a) && #[trigger] self.rows@[a].weights@.contains_key(b) ==> self.rows@.contains_key(b)
    }

    spec fn rows_wf(&self) -> bool {
        forall|a: V| #[trigger] self.rows@.contains_key(a) ==> {
            let row = self.rows@[a];
            &&& row.order@.no_duplicates()
            &&& forall|b: V| #[trigger] row.order@.contains(b) <==> row.weights@.contains_key(b)
        }
    }

    /// The neighbours of `a`, in the order in which they were first added.
    pub closed spec fn neighbours(&self, a: V) -> Seq<V> {
        if self.rows@.contains_key(a) {
            self.rows@[a].order@
        } else {
            Seq::empty()
        }
    }

    /// The weight of the arc `a -> b`.
    pub open spec fn weight(&self, a: V, b: V) -> nat {
        self@[a][b] as nat
    }

    /// The graph as a neighbour function.
    pub open spec fn arcs(&self) -> spec_fn(V) -> Seq<V> {
        |a: V| self.neighbours(a)
    }

    /// The graph's weights as a function.
    pub open spec fn costs(&self) -> spec_fn(V, V) -> nat {
        |a: V, b: V| self.weight(a, b)
    }

    /// What the map says of the neighbours of each vertex.
    pub proof fn lemma_neighbours(&self)
        requires
            self.wf(),
        ensures
            forall|a: V, b: V|
                #[trigger] self.neighbours(a).contains(b) <==> self@.contains_key(a) && self@[a].contains_key(b),
            forall|a: V| #[trigger] self.neighbours(a).no_duplicates(),
            forall|a: V, b: V| #[trigger] self.neighbours(a).contains(b) ==> self@.contains_key(b),
    {
        assert forall|a: V, b: V| #[trigger] self.neighbours(a).contains(b) <==> self@.contains_key(a) && self@[a].contains_key(b) by {
            if self.rows@.contains_key(a) {
                assert(self.rows@[a].order@.contains(b) <==> self.rows@[a].weights@.contains_key(b));
            }
        }
    }
}

impl<V: Copy + Eq + Hash> AdjMap<V> {
    /// The neighbours of `a`, in the order in which they were first added; none if `a` has no arcs.
    pub fn adjacent(&self, a: V) -> (r: Vec<V>)
        requires
            obeys_key_model::<V>(),
        ensures
            r@ == self.neighbours(a),
    {
        let mut out: Vec<V> = Vec::new();
        match self.rows.get(&a) {
            Some(row) => {
                let mut k: usize = 0;
                while k < row.order.len()
                    invariant
                        k <= row.order@.len(),
                        out@ == row.order@.take(k as int),
                    decreases row.order@.len() - k,
                {
                    out.push(row.order[k]);
                    k = k + 1;
                    proof {
                        assert(out@ =~= row.order@.take(k as int));
                    }
                }
                proof {
                    assert(out@ =~= row.order@);
                }
            },
            None => {
                proof {
                    assert(out@ =~= Seq::<V>::empty());
                }
            },
        }
        out
    }

    /// The weight of the arc `a -> b`, which must exist.
    pub fn cost(&self, a: V, b: V) -> (r: u64)
        requires
            obeys_key_model::<V>(),
            self@.contains_key(a),
            self@[a].contains_key(b),
        ensures
            r == self@[a][b],
    {
        let row = self.rows.get(&a).unwrap();
        *row.weights.get(&b).unwrap()
    }

    /// Sets the weight of the arc `a -> b` to `w`.
    fn insert_arc(&mut self, a: V, b: V, w: u64)
        requires
            obeys_key_model::<V>(),
            old(self).rows_wf(),
        ensures
            final(self).rows_wf(),
            final(self)@ == add_arc(old(self)@, a, b, w),
    {
        let ghost old_view = self@;
        let ghost old_rows = self.rows@;
        let mut row = match self.rows.remove(&a) {
            Some(r) => r,
            None => Row { weights: HashMap::new(), order: Vec::new() },
        };
        let ghost old_w = row.weights@;
        let ghost old_o = row.order@;
        proof {
            assert(old_w == if old_view.contains_key(a) { old_view[a] } else { Map::<V, u64>::empty() });
            assert(old_o.no_duplicates());
            assert(forall|y: V| #[trigger] old_o.contains(y) <==> old_w.contains_key(y));
        }
        match row.weights.insert(b, w) {
            Some(_) => {},
            None => {
                row.order.push(b);
                proof {
                    assert forall|y: V| #[trigger] row.order@.contains(y) implies y == b || old_o.contains(y) by {
                        let k = choose|k: int| 0 <= k < row.order@.len() && row.order@[k] == y;
                        if k < old_o.len() {
                            assert(old_o[k] == y);
                        }
                    }
                    assert(old_o.contains(b) ==> row.order@.contains(b));
                    assert(row.order@[old_o.len() as int] == b);
                }
            },
        }
        proof {
            assert(row.order@.no_duplicates());
            assert forall|y: V| #[trigger] row.order@.contains(y) <==> row.weights@.contains_key(y) by {
                if old_o.contains(y) {
                    let k = choose|k: int| 0 <= k < old_o.len() && old_o[k] == y;
                    assert(row.order@[k] == y);
                }
            }
        }
        self.rows.insert(a, row);
        proof {
            assert(self@ =~= add_arc(old_view, a, b, w));
            assert forall|x: V| #[trigger] self.rows@.contains_key(x) implies {
                let row = self.rows@[x];
                &&& row.order@.no_duplicates()
                &&& forall|y: V| #[trigger] row.order@.contains(y) <==> row.weights@.contains_key(y)
            } by {
                if x != a {
                    assert(old_rows.contains_key(x));
                }
            }
        }
    }
}

/// In a map built from `graph`, the two vertices of each edge list each other as neighbours,
/// and an edge that no later edge joins again gives both directions its weight.
pub proof fn lemma_adj_map_symmetric<V>(graph: Seq<(V, V, u64)>, adj: AdjMap<V>, i: int)
    requires
        adj.wf(),
        adj@ == adj_model(graph),
        0 <= i < graph.len(),
    ensures
        adj.neighbours(graph[i].0).contains(graph[i].1),
        adj.neighbours(graph[i].1).contains(graph[i].0),
        (forall|j: int| i < j < graph.len() ==> !same_pair(#[trigger] graph[j], graph[i])) ==> {
            &&& adj.weight(graph[i].0, graph[i].1) == graph[i].2
            &&& adj.weight(graph[i].1, graph[i].0) == graph[i].2
        },
{
    adj.lemma_neighbours();
    lemma_edge_present(graph, i);
    if forall|j: int| i < j < graph.len() ==> !same_pair(#[trigger] graph[j], graph[i]) {
        lemma_edge_weight(graph, i);
    }
}

/// Builds the undirected adjacency map of a list of edges `(a, b, weight)`. A later edge
/// between the same two vertices replaces the weight of an earlier one.
pub fn make_adj_map<V: Copy + Eq + Hash>(graph: &[(V, V, u64)]) -> (r: AdjMap<V>)
    requires
        obeys_key_model::<V>(),
    ensures
        r.wf(),
        r@ == adj_model(graph@),
{
    let mut adj = AdjMap { rows: HashMap::new() };
    proof {
        assert(adj@ =~= adj_model(graph@.take(0)));
    }
    let mut i: usize = 0;
    while i < graph.len()
        invariant
            obeys_key_model::<V>(),
            i <= graph@.len(),
            adj.rows_wf(),
            adj@ == adj_model(graph@.take(i as int)),
        decreases graph@.len() - i,
    {
        let (a, b, w) = graph[i];
        adj.insert_arc(a, b, w);
        adj.insert_arc(b, a, w);
        proof {
            assert(graph@.take(i + 1).drop_last() =~= graph@.take(i as int));
        }
        i = i + 1;
    }
    proof {
        assert(graph@.take(i as int) =~= graph@);
        lemma_model_symmetric(graph@);
        assert forall|a: V, b: V| adj.rows@.contains_key(a) && #[trigger] adj.rows@[a].weights@.contains_key(b) implies adj.rows@.contains_key(b) by {
            assert(adj@.contains_key(a) && adj@[a].contains_key(b));
        }
    }
    adj
}

/// Dijkstra's algorithm on an adjacency map: the vertices of a cheapest walk from `start` to
/// `end`, listed from `end` back to `start`, or `None` when `end` cannot be reached.
pub fn djikstra_adj_map<V: Copy + Eq + Hash>(adj: &AdjMap<V>, start: V, end: V) -> (r: Option<Vec<V>>)
    requires
        obeys_key_model::<V>(),
        adj.wf(),
    ensures
        r is Some <==> reachable(adj.arcs(), start, end),
        r matches Some(p) ==> is_shortest(adj.arcs(), adj.costs(), p@.reverse(), start, end),
        r matches Some(p) ==> p@.no_duplicates(),
        start == end ==> (r matches Some(p) && p@ == seq![end]),
{
    let cost = |a: V, b: V| -> (w: u64)
        requires
            obeys_key_model::<V>(),
            adj.wf(),
            adj.neighbours(a).contains(b),
        ensures
            w as nat == adj.weight(a, b),
        {
            proof {
                adj.lemma_neighbours();
            }
            adj.cost(a, b)
        };
    let adjacent = |a: V| -> (r: Vec<V>)
        requires
            obeys_key_model::<V>(),
        ensures
            r@ == adj.neighbours(a),
        { adj.adjacent(a) };
    let ghost univ = adj@.dom().insert(start);
    proof {
        adj.lemma_neighbours();
        assert(adj@.dom() =~= adj.rows@.dom());
        assert(closed_finite(adj.arcs(), univ, start));
        assert(describes(cost, adjacent, adj.arcs(), adj.costs()));
    }
    let r = search(cost, adjacent, start, end, None, Ghost(adj.arcs()), Ghost(adj.costs()), Ghost(univ));
    proof {
        if r is Some {
            assert(reachable(adj.arcs(), start, end));
        }
    }
    r
}

} // verus!
