use crate::graph::Graph;
use vstd::prelude::*;

verus! {

/// A probabilistic roadmap: sampled states, joined wherever a nearness test holds of two
/// of them.
#[derive(Debug)]
pub struct PRM<T> {
    pub graph: Graph<T>,
}

/// Whether the edge between `i` and `j` in `graph` is as `near` decides of their states:
/// there is an edge if `near` answers `true` on them, and none if it answers `false`.
pub open spec fn edge_as_decided<T, F: Fn(&T, &T) -> bool>(
    near: F,
    graph: Graph<T>,
    i: usize,
    j: usize,
) -> bool {
    call_ensures(
        near,
        (&graph.states()[i as int], &graph.states()[j as int]),
        graph.adjacent(i, j),
    )
}

/// Where the nearness test has one answer for each pair of states, the same in either
/// order, an edge joins two vertices exactly if the test says yes of their states: the edge
/// is there if the answer is `true`, and not there if it is `false`. The premise on `graph`
/// is what building a roadmap with `near` gives.
pub proof fn lemma_edge_iff_near<T, F: Fn(&T, &T) -> bool>(
    near: F,
    graph: Graph<T>,
    i: usize,
    j: usize,
    answer: bool,
)
    requires
        graph.wf(),
        forall|a: &T, b: &T, r: bool, s: bool|
            #[trigger] call_ensures(near, (a, b), r) && #[trigger] call_ensures(near, (a, b), s)
                ==> r == s,
        forall|a: &T, b: &T, r: bool| #[trigger]
            call_ensures(near, (a, b), r) ==> call_ensures(near, (b, a), r),
        forall|a: usize, b: usize| a < b < graph.size() ==> edge_as_decided(near, graph, a, b),
        i < graph.size(),
        j < graph.size(),
        i != j,
        call_ensures(near, (&graph.states()[i as int], &graph.states()[j as int]), answer),
    ensures
        graph.adjacent(i, j) == answer,
{
    if i < j {
        assert(edge_as_decided(near, graph, i, j));
    } else {
        assert(edge_as_decided(near, graph, j, i));
        if graph.adjacent(i, j) {
            crate::graph::lemma_adjacency_symmetric(graph, i, j);
        }
        if graph.adjacent(j, i) {
            crate::graph::lemma_adjacency_symmetric(graph, j, i);
        }
    }
}

/// Joins every vertex from index `from` on to each vertex before it on whose states
/// `near` holds. This compares every such pair once, so it takes time quadratic in the
/// number of vertices.
fn connect_from<T, F: Fn(&T, &T) -> bool>(graph: &mut Graph<T>, from: usize, near: &F)
    requires
        from <= old(graph).size(),
        forall|i: usize, j: usize| from <= j ==> !old(graph).adjacent(i, j),
        forall|i: int, j: int|
            0 <= i < j < old(graph).size() && from <= j ==> call_requires(
                *near,
                (&old(graph).states()[i], &old(graph).states()[j]),
            ),
    ensures
        final(graph).wf(),
        final(graph).states() == old(graph).states(),
        final(graph).size() == old(graph).size(),
        forall|i: usize, j: usize|
            i < j < from ==> final(graph).adjacent(i, j) == old(graph).adjacent(i, j),
        forall|i: usize, j: usize|
            i < j < final(graph).size() && from <= j ==> edge_as_decided(
                *near,
                *final(graph),
                i,
                j,
            ),
{
    proof {
        use_type_invariant(&*graph);
    }
    let n = graph.len();
    let mut j: usize = from;
    while j < n
        invariant
            graph.wf(),
            graph.size() == n,
            n == old(graph).size(),
            graph.states() == old(graph).states(),
            from <= j <= n,
            forall|a: usize, b: usize|
                a < b < from ==> graph.adjacent(a, b) == old(graph).adjacent(a, b),
            forall|a: usize, b: usize|
                a < b < j && from <= b ==> edge_as_decided(*near, *graph, a, b),
            forall|a: usize, b: usize| j <= b ==> !graph.adjacent(a, b),
            forall|a: int, b: int|
                0 <= a < b < n && from <= b ==> call_requires(
                    *near,
                    (&graph.states()[a], &graph.states()[b]),
                ),
        decreases n - j,
    {
        let mut i: usize = 0;
        while i < j
            invariant
                graph.wf(),
                graph.size() == n,
                n == old(graph).size(),
                graph.states() == old(graph).states(),
                from <= j < n,
                i <= j,
                forall|a: usize, b: usize|
                    a < b < from ==> graph.adjacent(a, b) == old(graph).adjacent(a, b),
                forall|a: usize, b: usize|
                    a < b < j && from <= b ==> edge_as_decided(*near, *graph, a, b),
                forall|a: usize| a < i ==> edge_as_decided(*near, *graph, a, j),
                forall|a: usize| i <= a ==> !graph.adjacent(a, j),
                forall|a: usize, b: usize| j < b ==> !graph.adjacent(a, b),
                forall|a: int, b: int|
                    0 <= a < b < n && from <= b ==> call_requires(
                        *near,
                        (&graph.states()[a], &graph.states()[b]),
                    ),
            decreases j - i,
        {
            let ghost before = *graph;
            let joined = near(graph.state(i), graph.state(j));
            if joined {
                graph.connect(i, j);
            }
            proof {
                assert forall|a: usize, b: usize| a < b < j && from <= b implies edge_as_decided(
                    *near,
                    *graph,
                    a,
                    b,
                ) by {
                    assert(edge_as_decided(*near, before, a, b));
                }
                assert forall|a: usize| a < i + 1 implies edge_as_decided(*near, *graph, a, j) by {
                    if a < i {
                        assert(edge_as_decided(*near, before, a, j));
                    }
                }
            }
            i = i + 1;
        }
        j = j + 1;
    }
}

impl<T> PRM<T> {
    /// Builds a roadmap of the states given: vertex `k` holds the `k`-th of them. Two
    /// vertices are joined exactly as `near` decides of their states, the state of the lower
    /// index given first.
    ///
    /// Every pair of vertices is compared, so building takes time quadratic in the number
    /// of states: this is where a large roadmap spends its time. An index over the states
    /// could find the near pairs faster; the edges it finds must be these.
    pub fn from_states<F: Fn(&T, &T) -> bool>(states: Vec<T>, near: F) -> (prm: Self)
        requires
            forall|i: int, j: int|
                0 <= i < j < states@.len() ==> call_requires(near, (&states@[i], &states@[j])),
        ensures
            prm.graph.wf(),
            prm.graph.states() == states@,
            forall|i: usize, j: usize|
                i < j < states@.len() ==> edge_as_decided(near, prm.graph, i, j),
    {
        let ghost given = states@;
        let mut graph: Graph<T> = Graph::new();
        for state in it: states
            invariant
                graph.wf(),
                it.seq() == given,
                graph.states() == given.take(it.index()),
                forall|a: usize, b: usize| !graph.adjacent(a, b),
        {
            graph.push_vertex(state);
            proof {
                assert(given.take(it.index() + 1) =~= given.take(it.index()).push(state));
            }
        }
        proof {
            assert(given.take(given.len() as int) =~= given);
        }
        connect_from(&mut graph, 0, &near);
        PRM { graph }
    }

    /// Builds a roadmap of `num_samples` vertices. Each state is one answer of `sample`, and
    /// two vertices are joined exactly as `near` decides of their states, the state of the
    /// lower index given first. The states are drawn one after the other, and the roadmap is
    /// that of `from_states` on the list of them.
    pub fn with_num_samples<S: Fn() -> T, F: Fn(&T, &T) -> bool>(
        sample: S,
        num_samples: usize,
        near: F,
    ) -> (prm: Self)
        requires
            call_requires(sample, ()),
            forall|a: T, b: T|
                call_ensures(sample, (), a) && call_ensures(sample, (), b) ==> call_requires(
                    near,
                    (&a, &b),
                ),
        ensures
            prm.graph.wf(),
            prm.graph.size() == num_samples,
            forall|i: int|
                0 <= i < num_samples ==> call_ensures(sample, (), #[trigger] prm.graph.states()[i]),
            forall|i: usize, j: usize|
                i < j < num_samples ==> edge_as_decided(near, prm.graph, i, j),
    {
        let mut states: Vec<T> = Vec::with_capacity(num_samples);
        let mut k: usize = 0;
        while k < num_samples
            invariant
                states@.len() == k,
                k <= num_samples,
                call_requires(sample, ()),
                forall|i: int| 0 <= i < k ==> call_ensures(sample, (), #[trigger] states@[i]),
            decreases num_samples - k,
        {
            states.push(sample());
            k = k + 1;
        }
        Self::from_states(states, near)
    }

    /// Appends one vertex for each of `states`, in their order, and joins each new vertex to
    /// the vertices before it, old and new, as `near` decides of their states. Edges among
    /// the old vertices stay as they are. Returns the indices of the new vertices.
    pub fn add<const N: usize, F: Fn(&T, &T) -> bool>(&mut self, states: [T; N], near: F) -> (idxes:
        [usize; N]) where T: Copy
        requires
            forall|i: int, j: int|
                0 <= i < j < old(self).graph.size() + N && old(self).graph.size() <= j
                    ==> call_requires(
                    near,
                    (
                        &(old(self).graph.states() + states@)[i],
                        &(old(self).graph.states() + states@)[j],
                    ),
                ),
        ensures
            final(self).graph.wf(),
            final(self).graph.states() == old(self).graph.states() + states@,
            final(self).graph.size() == old(self).graph.size() + N,
            forall|k: int| 0 <= k < N ==> idxes@[k] == old(self).graph.size() + k,
            forall|i: usize, j: usize|
                i < j < old(self).graph.size() ==> final(self).graph.adjacent(i, j) == old(
                    self,
                ).graph.adjacent(i, j),
            forall|i: usize, j: usize|
                i < j < final(self).graph.size() && old(self).graph.size() <= j
                    ==> edge_as_decided(near, final(self).graph, i, j),
    {
        proof {
            use_type_invariant(&self.graph);
        }
        let prev_graph_size = self.graph.len();
        let mut k: usize = 0;
        while k < N
            invariant
                self.graph.wf(),
                k <= N,
                prev_graph_size == old(self).graph.size(),
                self.graph.size() == prev_graph_size + k,
                self.graph.states() == old(self).graph.states() + states@.take(k as int),
                forall|a: usize, b: usize|
                    self.graph.adjacent(a, b) == old(self).graph.adjacent(a, b),
            decreases N - k,
        {
            self.graph.push_vertex(states[k]);
            proof {
                assert(states@.take(k + 1) =~= states@.take(k as int).push(states@[k as int]));
                assert(self.graph.states() =~= old(self).graph.states() + states@.take(k + 1));
            }
            k = k + 1;
        }
        proof {
            assert(states@.take(N as int) =~= states@);
        }
        connect_from(&mut self.graph, prev_graph_size, &near);
        let graph_size = self.graph.len();
        let mut idxes = [0usize;N];
        let mut k: usize = 0;
        while k < N
            invariant
                k <= N,
                prev_graph_size + N == graph_size,
                forall|m: int| 0 <= m < k ==> idxes@[m] == prev_graph_size + m,
            decreases N - k,
        {
            idxes[k] = prev_graph_size + k;
            k = k + 1;
        }
        idxes
    }
}

} // verus!
