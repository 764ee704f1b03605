use std::collections::HashSet;
use vstd::prelude::*;

verus! {

broadcast use vstd::std_specs::hash::group_hash_axioms;

/// One vertex of a roadmap: a state and the indices of the vertices it is joined to.
#[derive(Debug)]
pub struct Vertex<T> {
    pub(crate) state: T,
    pub(crate) adjacencies: HashSet<usize>,
}

/// An undirected graph over a flat, append-only list of vertices.
///
/// A vertex is known by its position in the list. An edge between `i` and `j` is held
/// twice: `j` is in the adjacency set of `i`, and `i` in that of `j`.
#[derive(Debug)]
pub struct Graph<T> {
    pub(crate) vertices: Vec<Vertex<T>>,
}

/// The sum of the sizes of the sets in `adj`.
pub open spec fn degree_sum(adj: Seq<Set<usize>>) -> nat
    decreases adj.len(),
{
    if adj.len() == 0 {
        0
    } else {
        degree_sum(adj.drop_last()) + adj.last().len()
    }
}

/// Whether the list of adjacency sets `adj` describes an undirected graph without loops:
/// every set is finite and holds only indices of the list, no vertex is joined to itself,
/// and `j` is a neighbour of `i` exactly when `i` is a neighbour of `j`.
pub open spec fn symmetric_adjacency(adj: Seq<Set<usize>>) -> bool {
    &&& forall|i: int| 0 <= i < adj.len() ==> (#[trigger] adj[i]).finite()
    &&& forall|i: int, j: usize|
        0 <= i < adj.len() && #[trigger] adj[i].contains(j) ==> {
            &&& j < adj.len()
            &&& j != i
            &&& adj[j as int].contains(i as usize)
        }
}

/// A prefix of a list of sets sums to no more than the whole list.
proof fn lemma_degree_sum_prefix(adj: Seq<Set<usize>>, k: int)
    requires
        0 <= k <= adj.len(),
    ensures
        degree_sum(adj.take(k)) <= degree_sum(adj),
    decreases adj.len() - k,
{
    if k < adj.len() {
        lemma_degree_sum_prefix(adj, k + 1);
        assert(adj.take(k + 1).drop_last() =~= adj.take(k));
    } else {
        assert(adj.take(k) =~= adj);
    }
}

/// The pairs `(i, j)` with `i` below `k` and `j` in the adjacency set of `i`.
spec fn arcs_below(adj: Seq<Set<usize>>, k: int) -> Set<(usize, usize)> {
    Set::new(|arc: (usize, usize)| arc.0 < k && arc.0 < adj.len() && adj[arc.0 as int].contains(arc.1))
}

/// The first `k` adjacency sets hold as many entries as there are pairs `(i, j)` with `i`
/// below `k` and `j` in the adjacency set of `i`.
proof fn lemma_arcs_count(adj: Seq<Set<usize>>, k: int)
    requires
        0 <= k <= adj.len(),
        adj.len() <= usize::MAX,
        forall|i: int| 0 <= i < adj.len() ==> (#[trigger] adj[i]).finite(),
    ensures
        arcs_below(adj, k).finite(),
        arcs_below(adj, k).len() == degree_sum(adj.take(k)),
    decreases k,
{
    if k == 0 {
        assert(arcs_below(adj, k) =~= Set::<(usize, usize)>::empty());
    } else {
        lemma_arcs_count(adj, k - 1);
        let i = (k - 1) as usize;
        let from_i = |j: usize| (i, j);
        let row = adj[k - 1].map(from_i);
        assert(vstd::relations::injective_on(from_i, adj[k - 1]));
        vstd::set_lib::lemma_map_size(adj[k - 1], row, from_i);
        let before = arcs_below(adj, k - 1);
        assert forall|arc: (usize, usize)| row.contains(arc) <==> arc.0 == i && adj[k - 1].contains(
            arc.1,
        ) by {
            if arc.0 == i && adj[k - 1].contains(arc.1) {
                assert(from_i(arc.1) == arc);
            }
        }
        assert(arcs_below(adj, k) =~= before + row);
        assert(before.disjoint(row));
        vstd::set_lib::lemma_set_disjoint_lens(before, row);
        assert(adj.take(k).drop_last() =~= adj.take(k - 1));
        assert(adj.take(k).last() == adj[k - 1]);
    }
}

/// What `num_edges` returns is twice the number of edges: each edge is in the adjacency
/// sets of both its ends.
pub proof fn lemma_degree_total_counts_edges_twice<T>(graph: Graph<T>)
    requires
        graph.wf(),
    ensures
        graph.edges().finite(),
        graph.degree_total() == 2 * graph.edges().len(),
{
    let adj = graph.adjacency();
    let n = adj.len() as int;
    assert(n <= usize::MAX) by {
        vstd::std_specs::vec::axiom_spec_len(&graph.vertices);
    }
    lemma_arcs_count(adj, n);
    assert(adj.take(n) =~= adj);
    let arcs = arcs_below(adj, n);
    let up = graph.edges();
    let turned = |e: (usize, usize)| (e.1, e.0);
    let down = up.map(turned);
    assert(up.subset_of(arcs));
    vstd::set_lib::lemma_set_subset_finite(arcs, up);
    assert(vstd::relations::injective_on(turned, up));
    vstd::set_lib::lemma_map_size(up, down, turned);
    assert forall|arc: (usize, usize)| down.contains(arc) <==> arc.1 < arc.0 && graph.adjacent(
        arc.0,
        arc.1,
    ) by {
        if arc.1 < arc.0 && graph.adjacent(arc.0, arc.1) {
            assert(up.contains((arc.1, arc.0)));
            assert(turned((arc.1, arc.0)) == arc);
        }
    }
    assert(arcs =~= up + down);
    assert(up.disjoint(down));
    vstd::set_lib::lemma_set_disjoint_lens(up, down);
}

/// In a well-formed graph an edge is held from both its ends, joins two different
/// vertices, and both are vertices of the graph.
pub proof fn lemma_adjacency_symmetric<T>(graph: Graph<T>, i: usize, j: usize)
    requires
        graph.wf(),
        graph.adjacent(i, j),
    ensures
        graph.adjacent(j, i),
        i != j,
        i < graph.size(),
        j < graph.size(),
{
}

impl<T> Graph<T> {
    /// The states of the vertices, in index order.
    pub closed spec fn states(&self) -> Seq<T> {
        Seq::new(self.vertices@.len(), |i: int| self.vertices@[i].state)
    }

    /// The adjacency sets of the vertices, in index order.
    pub closed spec fn adjacency(&self) -> Seq<Set<usize>> {
        Seq::new(self.vertices@.len(), |i: int| self.vertices@[i].adjacencies@)
    }

    /// The number of vertices.
    pub open spec fn size(&self) -> nat {
        self.adjacency().len()
    }

    /// Whether `j` is in the adjacency set of `i`.
    pub open spec fn adjacent(&self, i: usize, j: usize) -> bool {
        i < self.size() && self.adjacency()[i as int].contains(j)
    }

    /// The invariant of a graph: one state per adjacency set, and the sets describe an
    /// undirected graph without loops.
    #[verifier::type_invariant]
    pub open spec fn wf(&self) -> bool {
        &&& self.states().len() == self.size()
        &&& symmetric_adjacency(self.adjacency())
    }

    /// What `num_edges` counts: the sizes of all adjacency sets, added up.
    pub open spec fn degree_total(&self) -> nat {
        degree_sum(self.adjacency())
    }

    /// The edges of the graph, each as the pair of its ends with the lower index first.
    pub open spec fn edges(&self) -> Set<(usize, usize)> {
        Set::new(|e: (usize, usize)| e.0 < e.1 && self.adjacent(e.0, e.1))
    }

    /// Whether `walk` names at least one vertex and an edge joins each vertex in it to the
    /// next.
    pub open spec fn is_walk(&self, walk: Seq<usize>) -> bool {
        &&& walk.len() > 0
        &&& forall|k: int| 0 <= k < walk.len() - 1 ==> self.adjacent(#[trigger] walk[k], walk[k + 1])
    }

    /// Whether some walk leads from `from` to `to`.
    pub open spec fn reachable(&self, from: usize, to: usize) -> bool {
        exists|walk: Seq<usize>| #[trigger]
            self.is_walk(walk) && walk.first() == from && walk.last() == to
    }

    /// A graph without vertices.
    pub fn new() -> (g: Self)
        ensures
            g.wf(),
            g.size() == 0,
    {
        Graph { vertices: Vec::new() }
    }

    /// Appends a vertex in state `state`, joined to nothing, and returns its index.
    pub(crate) fn push_vertex(&mut self, state: T) -> (idx: usize)
        ensures
            final(self).wf(),
            idx == old(self).size(),
            final(self).states() == old(self).states().push(state),
            final(self).adjacency() == old(self).adjacency().push(Set::empty()),
            forall|a: usize, b: usize| final(self).adjacent(a, b) == old(self).adjacent(a, b),
    {
        proof {
            use_type_invariant(&*self);
        }
        let idx = self.vertices.len();
        let mut vertices = Vec::new();
        core::mem::swap(&mut vertices, &mut self.vertices);
        vertices.push(Vertex { state, adjacencies: HashSet::new() });
        proof {
            let grown = Graph { vertices };
            assert(grown.states() =~= old(self).states().push(state));
            assert(grown.adjacency() =~= old(self).adjacency().push(Set::empty()));
        }
        self.vertices = vertices;
        idx
    }

    /// Joins the vertices `i` and `j` by an edge, if none joins them yet.
    pub(crate) fn connect(&mut self, i: usize, j: usize)
        requires
            i < old(self).size(),
            j < old(self).size(),
            i != j,
        ensures
            final(self).wf(),
            final(self).states() == old(self).states(),
            final(self).adjacency() == old(self).adjacency().update(
                i as int,
                old(self).adjacency()[i as int].insert(j),
            ).update(j as int, old(self).adjacency()[j as int].insert(i)),
            forall|a: usize, b: usize|
                final(self).adjacent(a, b) == (old(self).adjacent(a, b) || (a == i && b == j) || (a
                    == j && b == i)),
    {
        proof {
            use_type_invariant(&*self);
        }
        let mut vertices = Vec::new();
        core::mem::swap(&mut vertices, &mut self.vertices);
        vertices[i].adjacencies.insert(j);
        vertices[j].adjacencies.insert(i);
        proof {
            let joined = Graph { vertices };
            assert(joined.states() =~= old(self).states());
            assert(joined.adjacency() =~= old(self).adjacency().update(
                i as int,
                old(self).adjacency()[i as int].insert(j),
            ).update(j as int, old(self).adjacency()[j as int].insert(i)));
        }
        self.vertices = vertices;
    }

    /// The number of vertices.
    pub fn len(&self) -> (n: usize)
        ensures
            n == self.size(),
    {
        self.vertices.len()
    }

    /// The state of vertex `i`.
    pub fn state(&self, i: usize) -> (s: &T)
        requires
            i < self.size(),
        ensures
            *s == self.states()[i as int],
    {
        &self.vertices[i].state
    }

    /// The adjacency set of vertex `i`.
    pub fn neighbors(&self, i: usize) -> (adj: &HashSet<usize>)
        requires
            i < self.size(),
        ensures
            adj@ == self.adjacency()[i as int],
    {
        &self.vertices[i].adjacencies
    }

    /// Whether an edge joins `i` and `j`. Indices that name no vertex are joined to nothing.
    pub fn has_edge(&self, i: usize, j: usize) -> (b: bool)
        ensures
            b == self.adjacent(i, j),
    {
        i < self.vertices.len() && self.vertices[i].adjacencies.contains(&j)
    }

    /// The number of adjacency entries: every undirected edge is counted twice, once from
    /// each of its ends.
    pub fn num_edges(&self) -> (n: usize)
        requires
            self.degree_total() <= usize::MAX,
        ensures
            n == self.degree_total(),
    {
        let mut n: usize = 0;
        let mut i: usize = 0;
        while i < self.vertices.len()
            invariant
                i <= self.vertices.len(),
                self.adjacency().len() == self.vertices.len(),
                n == degree_sum(self.adjacency().take(i as int)),
                self.degree_total() <= usize::MAX,
            decreases self.vertices.len() - i,
        {
            proof {
                lemma_degree_sum_prefix(self.adjacency(), i + 1);
                assert(self.adjacency().take(i + 1).drop_last() =~= self.adjacency().take(
                    i as int,
                ));
            }
            n = n + self.vertices[i].adjacencies.len();
            i = i + 1;
        }
        proof {
            assert(self.adjacency().take(i as int) =~= self.adjacency());
        }
        n
    }
}

} // verus!
