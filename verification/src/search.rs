use crate::graph::Graph;
use crate::queue::{CostQueue, Entry};
use std::collections::HashMap;
use vstd::multiset::Multiset;
use vstd::prelude::*;

verus! {

broadcast use {
    vstd::std_specs::hash::group_hash_axioms,
    vstd::seq_lib::group_to_multiset_ensures,
    vstd::multiset::group_multiset_axioms,
};

/// Whether `parents` is a tree over vertices of `graph`, rooted at `start`, and `depths`
/// counts the edges from the root: the root alone has no parent, every other vertex in
/// the tree hangs by an edge of the graph below a vertex in the tree that is one edge
/// nearer to the root.
pub open spec fn tree_ok<T>(
    graph: Graph<T>,
    start: usize,
    parents: Map<usize, Option<usize>>,
    depths: Map<usize, nat>,
) -> bool {
    &&& parents.dom().finite()
    &&& parents.contains_key(start)
    &&& parents[start] is None
    &&& depths[start] == 0
    &&& forall|v: usize| #[trigger] parents.contains_key(v) ==> v < graph.size()
    &&& forall|v: usize|
        #[trigger] parents.contains_key(v) && v != start ==> match parents[v] {
            Some(u) => parents.contains_key(u) && graph.adjacent(u, v) && depths[v] == depths[u]
                + 1,
            None => false,
        }
}

/// Whether `v` was in the queue when the search had expanded the first `done` vertices of
/// `expansion`: it was discovered by then, as the start or as a neighbour of one of those
/// vertices, and it was not one of them.
pub open spec fn waiting_in(
    parents: Map<usize, Option<usize>>,
    expansion: Seq<usize>,
    start: usize,
    v: usize,
    done: int,
) -> bool {
    &&& parents.contains_key(v)
    &&& !expansion.take(done).contains(v)
    &&& (v == start || exists|j: int|
        0 <= j < done && j < expansion.len() && parents[v] == Some(#[trigger] expansion[j]))
}

/// Whether `expansion` can be the order in which a wavefront search expanded vertices.
///
/// No vertex is expanded twice. Each was waiting in the queue when its turn came, and cost
/// no more than any other that waited then. The parent of a vertex is the first of its
/// neighbours to be expanded.
pub open spec fn expansion_ok<T>(
    graph: Graph<T>,
    start: usize,
    parents: Map<usize, Option<usize>>,
    costs: Map<usize, i128>,
    expansion: Seq<usize>,
) -> bool {
    &&& expansion.no_duplicates()
    &&& forall|i: int|
        0 <= i < expansion.len() ==> #[trigger] waiting_in(parents, expansion, start, expansion[i], i)
    &&& forall|i: int, v: usize|
        0 <= i < expansion.len() && #[trigger] waiting_in(parents, expansion, start, v, i)
            ==> costs[expansion[i]] <= costs[v]
    &&& forall|i: int, v: usize|
        0 <= i < expansion.len() && #[trigger] graph.adjacent(expansion[i], v) ==> v == start
            || exists|j: int| 0 <= j <= i && parents[v] == Some(#[trigger] expansion[j])
}

/// What one wavefront search found: the tree of the vertices it discovered, each below the
/// vertex it was first reached from, and those it had queued but not expanded when it ended.
pub struct CostGuidedTreeSearchResult<'a, T> {
    pub(crate) graph: &'a Graph<T>,
    start_idx: usize,
    stop_idx: usize,
    reached: bool,
    pub(crate) parent_map: HashMap<usize, Option<usize>>,
    pub(crate) fringe: Vec<usize>,
    depths: Ghost<Map<usize, nat>>,
    costs: Ghost<Map<usize, i128>>,
    expansion: Ghost<Seq<usize>>,
}

impl<'a, T> CostGuidedTreeSearchResult<'a, T> {
    /// The graph that was searched.
    pub closed spec fn searched(&self) -> Graph<T> {
        *self.graph
    }

    /// The vertex the search set out from.
    pub closed spec fn start(&self) -> usize {
        self.start_idx
    }

    /// The vertex the search looked for.
    pub closed spec fn stop(&self) -> usize {
        self.stop_idx
    }

    /// Whether the search came to `stop`.
    pub closed spec fn succeeded(&self) -> bool {
        self.reached
    }

    /// The parent of each discovered vertex; `None` for `start`.
    pub closed spec fn parents(&self) -> Map<usize, Option<usize>> {
        self.parent_map@
    }

    /// The vertices that were queued and not taken out again, least cost first.
    pub closed spec fn frontier(&self) -> Seq<usize> {
        self.fringe@
    }

    /// For each discovered vertex, how many tree edges lie between `start` and it.
    pub closed spec fn depths(&self) -> Map<usize, nat> {
        self.depths@
    }

    /// For each discovered vertex, the cost it was queued with.
    pub closed spec fn costs(&self) -> Map<usize, i128> {
        self.costs@
    }

    /// The vertices the search expanded, in the order in which it took them from the queue.
    pub closed spec fn expansion(&self) -> Seq<usize> {
        self.expansion@
    }

    /// Whether `v` was in the queue when the search had expanded `done` vertices.
    pub open spec fn waiting(&self, v: usize, done: int) -> bool {
        waiting_in(self.parents(), self.expansion(), self.start(), v, done)
    }

    /// Whether the search discovered `v`.
    pub open spec fn discovered(&self, v: usize) -> bool {
        self.parents().contains_key(v)
    }

    /// Whether the search discovered `v` and went on to look at all its neighbours.
    pub open spec fn expanded(&self, v: usize) -> bool {
        &&& self.discovered(v)
        &&& !self.frontier().contains(v)
        &&& !(self.succeeded() && v == self.stop())
    }

    /// The invariant of a search result.
    ///
    /// The parents form a tree rooted at `start`. The search succeeded exactly if it
    /// discovered `stop`. The frontier holds discovered vertices, none twice, in ascending
    /// order of cost; it is empty after a failed search, and after a successful one `stop`
    /// costs no more than any vertex in it. Every neighbour of an expanded vertex is
    /// discovered. The expanded vertices were taken from the queue in an order in which each
    /// cost no more than any vertex that waited with it, and the target of a successful
    /// search was taken last, on the same terms.
    #[verifier::type_invariant]
    pub open spec fn wf(&self) -> bool {
        &&& self.searched().wf()
        &&& self.start() < self.searched().size()
        &&& self.stop() < self.searched().size()
        &&& tree_ok(self.searched(), self.start(), self.parents(), self.depths())
        &&& self.succeeded() == self.discovered(self.stop())
        &&& self.frontier().no_duplicates()
        &&& forall|k: int|
            0 <= k < self.frontier().len() ==> self.discovered(#[trigger] self.frontier()[k])
                && self.frontier()[k] != self.stop()
        &&& forall|i: int, j: int|
            0 <= i <= j < self.frontier().len() ==> self.costs()[self.frontier()[i]]
                <= self.costs()[self.frontier()[j]]
        &&& forall|k: int|
            self.succeeded() && 0 <= k < self.frontier().len() ==> self.costs()[self.stop()]
                <= self.costs()[#[trigger] self.frontier()[k]]
        &&& !self.succeeded() ==> self.frontier().len() == 0
        &&& forall|v: usize, w: usize|
            self.expanded(v) && #[trigger] self.searched().adjacent(v, w) ==> self.discovered(w)
        &&& expansion_ok(
            self.searched(),
            self.start(),
            self.parents(),
            self.costs(),
            self.expansion(),
        )
        &&& forall|v: usize| self.expanded(v) <==> #[trigger] self.expansion().contains(v)
        &&& forall|v: usize| #[trigger]
            self.discovered(v) && v != self.start() ==> (self.parents()[v] matches Some(p)
                && self.expansion().contains(p))
        &&& self.succeeded() ==> self.waiting(self.stop(), self.expansion().len() as int)
        &&& forall|v: usize|
            self.succeeded() && #[trigger] self.waiting(v, self.expansion().len() as int)
                ==> self.costs()[self.stop()] <= self.costs()[v]
    }

    /// The vertices from the one `hops` tree edges above `v` down to `v`.
    pub open spec fn chain(&self, v: usize, hops: nat) -> Seq<usize>
        decreases hops,
    {
        if hops == 0 {
            seq![v]
        } else {
            match self.parents()[v] {
                Some(u) => self.chain(u, (hops - 1) as nat).push(v),
                None => seq![v],
            }
        }
    }

    /// The path in the tree from `start` to `goal`, if `goal` was discovered.
    pub open spec fn path_spec(&self, goal: usize) -> Option<Seq<usize>> {
        if self.discovered(goal) {
            Some(self.chain(goal, self.depths()[goal]))
        } else {
            None
        }
    }

    /// The graph that was searched.
    pub fn graph(&self) -> (graph: &'a Graph<T>)
        ensures
            *graph == self.searched(),
    {
        self.graph
    }

    /// The vertex the search set out from.
    pub fn start_idx(&self) -> (idx: usize)
        ensures
            idx == self.start(),
    {
        self.start_idx
    }

    /// The vertex the search looked for.
    pub fn stop_idx(&self) -> (idx: usize)
        ensures
            idx == self.stop(),
    {
        self.stop_idx
    }

    /// The parent of each discovered vertex; `None` for the start alone.
    pub fn parent_map(&self) -> (parents: &HashMap<usize, Option<usize>>)
        ensures
            parents@ == self.parents(),
    {
        &self.parent_map
    }

    /// The vertices that were still queued when the search ended, least cost first.
    pub fn fringe(&self) -> (frontier: &Vec<usize>)
        ensures
            frontier@ == self.frontier(),
    {
        &self.fringe
    }

    /// Whether the search reached its target.
    pub fn sucess(&self) -> (b: bool)
        ensures
            b == self.succeeded(),
    {
        self.reached
    }

    /// The path in the tree from the start to the target of the search, if it was reached.
    pub fn path_to_stop(&self) -> (path: Option<Vec<usize>>)
        ensures
            path is Some == self.succeeded(),
            path matches Some(p) ==> self.path_spec(self.stop()) == Some(p@),
    {
        proof {
            use_type_invariant(self);
        }
        self.path_to(self.stop_idx)
    }

    /// The path in the tree from the start to `goal_idx`: the start first, `goal_idx` last,
    /// each vertex the parent of the next. `None` if the search did not discover `goal_idx`.
    pub fn path_to(&self, goal_idx: usize) -> (path: Option<Vec<usize>>)
        requires
            goal_idx < self.searched().size(),
        ensures
            path is Some == self.discovered(goal_idx),
            path matches Some(p) ==> self.path_spec(goal_idx) == Some(p@),
    {
        proof {
            use_type_invariant(self);
        }
        if goal_idx == self.start_idx {
            let mut path = Vec::new();
            path.push(self.start_idx);
            assert(path@ =~= seq![self.start_idx]);
            return Some(path);
        }
        let mut idx = goal_idx;
        let mut upward: Vec<usize> = Vec::new();
        upward.push(idx);
        assert(upward@ =~= seq![goal_idx]);
        assert(upward@.reverse() =~= seq![goal_idx]);
        loop
            invariant
                self.wf(),
                goal_idx != self.start(),
                upward@.len() > 0,
                upward@.len() == 1 ==> idx == goal_idx,
                upward@.len() > 1 ==> self.discovered(goal_idx),
                upward@.reverse()[0] == idx,
                self.discovered(goal_idx) ==> self.discovered(idx),
                self.discovered(goal_idx) ==> self.chain(goal_idx, self.depths()[goal_idx])
                    == self.chain(idx, self.depths()[idx]) + upward@.reverse().drop_first(),
            ensures
                self.discovered(goal_idx) ==> upward@.len() > 1 && self.chain(
                    goal_idx,
                    self.depths()[goal_idx],
                ) == upward@.reverse(),
                !self.discovered(goal_idx) ==> upward@.len() == 1,
            decreases
                    if self.discovered(idx) {
                        self.depths()[idx] + 1
                    } else {
                        0
                    },
        {
            let parent: Option<usize> = match self.parent_map.get(&idx) {
                Some(found) => *found,
                None => None,
            };
            match parent {
                Some(parent_idx) => {
                    proof {
                        assert(self.discovered(idx));
                        assert(idx != self.start());
                        assert(self.discovered(goal_idx)) by {
                            if upward@.len() == 1 {
                                assert(idx == goal_idx);
                            }
                        }
                        let d = self.depths()[idx];
                        assert(self.chain(idx, d) == self.chain(parent_idx, (d - 1) as nat).push(
                            idx,
                        ));
                        assert(upward@.push(parent_idx).reverse() =~= seq![parent_idx]
                            + upward@.reverse());
                        assert(self.chain(parent_idx, (d - 1) as nat).push(idx)
                            + upward@.reverse().drop_first() =~= self.chain(
                            parent_idx,
                            (d - 1) as nat,
                        ) + upward@.push(parent_idx).reverse().drop_first());
                    }
                    upward.push(parent_idx);
                    idx = parent_idx;
                },
                None => {
                    proof {
                        if self.discovered(goal_idx) {
                            assert(self.discovered(idx));
                            assert(idx == self.start());
                            assert(self.chain(idx, self.depths()[idx]) =~= seq![idx]);
                            assert(seq![idx] + upward@.reverse().drop_first()
                                =~= upward@.reverse());
                            assert(upward@.len() > 1) by {
                                if upward@.len() == 1 {
                                    assert(idx == goal_idx);
                                }
                            }
                        } else {
                            assert(upward@.len() == 1);
                        }
                    }
                    break ;
                },
            }
        }
        if upward.len() == 1 {
            return None;
        }
        let mut path: Vec<usize> = Vec::with_capacity(upward.len());
        let mut k: usize = upward.len();
        while k > 0
            invariant
                k <= upward@.len(),
                path@.len() == upward@.len() - k,
                forall|i: int| 0 <= i < path@.len() ==> path@[i] == upward@[upward@.len() - 1 - i],
            decreases k,
        {
            k = k - 1;
            path.push(upward[k]);
        }
        assert(path@ =~= upward@.reverse());
        Some(path)
    }
}

/// What every wavefront search on `graph` from `start` to `stop` returns, whatever its
/// strategy: a well-formed result that names the graph and the two ends, and that has
/// succeeded exactly if some walk in the graph leads from `start` to `stop`.
pub open spec fn searched_from<T>(
    found: CostGuidedTreeSearchResult<'_, T>,
    graph: Graph<T>,
    start: usize,
    stop: usize,
) -> bool {
    &&& found.wf()
    &&& found.searched() == graph
    &&& found.start() == start
    &&& found.stop() == stop
    &&& found.succeeded() == graph.reachable(start, stop)
}

/// The state of a wavefront search between two steps.
///
/// `parents` and `depths` are the tree so far, and `costs` holds the cost each discovered
/// vertex was queued with. A discovered vertex is either queued, once and with its cost,
/// or expanded, or `pending`: taken from the queue and not expanded yet. Every neighbour
/// of an expanded vertex is discovered, and `stop` is never expanded.
spec fn wave_ok<T>(
    graph: Graph<T>,
    start: usize,
    stop: usize,
    parents: Map<usize, Option<usize>>,
    depths: Map<usize, nat>,
    costs: Map<usize, i128>,
    queued: Multiset<Entry>,
    expanded: Set<usize>,
    pending: Option<usize>,
) -> bool {
    &&& tree_ok(graph, start, parents, depths)
    &&& forall|v: usize| #[trigger] parents.contains_key(v) ==> depths[v] < parents.dom().len()
    &&& forall|e: Entry| #[trigger]
        queued.count(e) > 0 ==> parents.contains_key(e.1) && !expanded.contains(e.1) && Some(e.1)
            != pending && costs[e.1] == e.0 && queued.count(e) == 1
    &&& forall|v: usize| #[trigger]
        parents.contains_key(v) && !expanded.contains(v) && Some(v) != pending ==> queued.count(
            (costs[v], v),
        ) > 0
    &&& expanded.finite()
    &&& forall|v: usize| #[trigger] expanded.contains(v) ==> parents.contains_key(v) && v != stop
    &&& forall|v: usize, w: usize|
        expanded.contains(v) && #[trigger] graph.adjacent(v, w) ==> parents.contains_key(w)
    &&& pending matches Some(c) ==> parents.contains_key(c) && !expanded.contains(c)
}

/// The order of expansion between two steps of a search: `order` lists the vertices of
/// `expanded`, and the parent of every discovered vertex is expanded or `pending`.
spec fn trace_ok<T>(
    graph: Graph<T>,
    start: usize,
    parents: Map<usize, Option<usize>>,
    costs: Map<usize, i128>,
    expanded: Set<usize>,
    order: Seq<usize>,
    pending: Option<usize>,
) -> bool {
    &&& expansion_ok(graph, start, parents, costs, order)
    &&& forall|v: usize| expanded.contains(v) <==> #[trigger] order.contains(v)
    &&& forall|v: usize| #[trigger]
        parents.contains_key(v) && v != start ==> (parents[v] matches Some(p) && (
        expanded.contains(p) || pending == Some(p)))
}

/// Discovering `adj` from the pending vertex `curr` keeps the order of expansion in order.
proof fn lemma_trace_discover<T>(
    graph: Graph<T>,
    start: usize,
    parents: Map<usize, Option<usize>>,
    costs: Map<usize, i128>,
    expanded: Set<usize>,
    order: Seq<usize>,
    curr: usize,
    adj: usize,
    cost: i128,
)
    requires
        trace_ok(graph, start, parents, costs, expanded, order, Some(curr)),
        parents.contains_key(start),
        !parents.contains_key(adj),
        !expanded.contains(curr),
        forall|v: usize| #[trigger] expanded.contains(v) ==> parents.contains_key(v),
        forall|v: usize, w: usize|
            expanded.contains(v) && #[trigger] graph.adjacent(v, w) ==> parents.contains_key(w),
    ensures
        trace_ok(
            graph,
            start,
            parents.insert(adj, Some(curr)),
            costs.insert(adj, cost),
            expanded,
            order,
            Some(curr),
        ),
{
    let parents2 = parents.insert(adj, Some(curr));
    let costs2 = costs.insert(adj, cost);
    assert forall|i: int| 0 <= i < order.len() implies waiting_in(
        parents2,
        order,
        start,
        #[trigger] order[i],
        i,
    ) by {
        assert(order.contains(order[i]));
        assert(waiting_in(parents, order, start, order[i], i));
        if order[i] != start {
            let j = choose|j: int|
                0 <= j < i && j < order.len() && parents[order[i]] == Some(#[trigger] order[j]);
            assert(parents2[order[i]] == Some(order[j]));
        }
    }
    assert forall|i: int, v: usize|
        0 <= i < order.len() && #[trigger] waiting_in(parents2, order, start, v, i) implies costs2[order[i]]
        <= costs2[v] by {
        assert(order.contains(order[i]));
        if v == adj {
            let j = choose|j: int|
                0 <= j < i && j < order.len() && parents2[v] == Some(#[trigger] order[j]);
            assert(order.contains(order[j]));
            assert(false);
        } else {
            if v != start {
                let j = choose|j: int|
                    0 <= j < i && j < order.len() && parents2[v] == Some(#[trigger] order[j]);
                assert(parents[v] == Some(order[j]));
            }
            assert(waiting_in(parents, order, start, v, i));
        }
    }
    assert forall|i: int, v: usize|
        0 <= i < order.len() && #[trigger] graph.adjacent(order[i], v) implies v == start
        || exists|j: int| 0 <= j <= i && parents2[v] == Some(#[trigger] order[j]) by {
        assert(order.contains(order[i]));
        assert(parents.contains_key(v));
        if v != start {
            let j = choose|j: int| 0 <= j <= i && parents[v] == Some(#[trigger] order[j]);
            assert(parents2[v] == Some(order[j]));
        }
    }
}

/// Once every neighbour of the pending vertex `curr` is discovered, `curr` takes its place
/// at the end of the order of expansion.
proof fn lemma_trace_expand<T>(
    graph: Graph<T>,
    start: usize,
    parents: Map<usize, Option<usize>>,
    costs: Map<usize, i128>,
    expanded: Set<usize>,
    order: Seq<usize>,
    curr: usize,
)
    requires
        trace_ok(graph, start, parents, costs, expanded, order, Some(curr)),
        parents.contains_key(curr),
        !expanded.contains(curr),
        curr == start || (parents[curr] matches Some(p) && expanded.contains(p)),
        forall|w: usize| #[trigger] graph.adjacent(curr, w) ==> parents.contains_key(w),
        forall|v: usize| #[trigger]
            parents.contains_key(v) && !expanded.contains(v) && (v == start || parents[v] != Some(
                curr,
            )) ==> costs[curr] <= costs[v],
    ensures
        trace_ok(graph, start, parents, costs, expanded.insert(curr), order.push(curr), None),
{
    let order2 = order.push(curr);
    let n = order.len() as int;
    assert forall|i: int| 0 <= i <= n implies #[trigger] order2.take(i) =~= order.take(i) by {}
    assert forall|v: usize| expanded.insert(curr).contains(v) <==> #[trigger] order2.contains(
        v,
    ) by {
        if order2.contains(v) {
            let k = choose|k: int| 0 <= k < order2.len() && order2[k] == v;
            if k < n {
                assert(order.contains(order[k]));
            }
        }
        if expanded.contains(v) {
            assert(order.contains(v));
            let k = choose|k: int| 0 <= k < order.len() && order[k] == v;
            assert(order2[k] == v);
        }
        if v == curr {
            assert(order2[n] == v);
        }
    }
    assert(order2.no_duplicates()) by {
        assert forall|a: int, b: int|
            0 <= a < order2.len() && 0 <= b < order2.len() && a != b implies order2[a]
            != order2[b] by {
            if a < n {
                assert(order.contains(order[a]));
            }
            if b < n {
                assert(order.contains(order[b]));
            }
        }
    }
    assert forall|i: int| 0 <= i < order2.len() implies waiting_in(
        parents,
        order2,
        start,
        #[trigger] order2[i],
        i,
    ) by {
        assert(order2.take(i) =~= order.take(i));
        if i < n {
            assert(waiting_in(parents, order, start, order[i], i));
            if order[i] != start {
                let j = choose|j: int|
                    0 <= j < i && j < order.len() && parents[order[i]] == Some(
                        #[trigger] order[j],
                    );
                assert(order2[j] == order[j]);
            }
        } else {
            assert(order.take(n) =~= order);
            if curr != start {
                let p = parents[curr]->Some_0;
                assert(order.contains(p));
                let j = choose|j: int| 0 <= j < order.len() && order[j] == p;
                assert(order2[j] == p);
            }
        }
    }
    assert forall|i: int, v: usize|
        0 <= i < order2.len() && #[trigger] waiting_in(parents, order2, start, v, i) implies costs[order2[i]]
        <= costs[v] by {
        assert(order2.take(i) =~= order.take(i));
        if v != start {
            let j = choose|j: int|
                0 <= j < i && j < order2.len() && parents[v] == Some(#[trigger] order2[j]);
            assert(order2[j] == order[j]);
            assert(order.contains(order[j]));
        }
        if i < n {
            assert(waiting_in(parents, order, start, v, i));
        } else {
            assert(order.take(n) =~= order);
            assert(!order.contains(v));
        }
    }
    assert forall|i: int, v: usize|
        0 <= i < order2.len() && #[trigger] graph.adjacent(order2[i], v) implies v == start
        || exists|j: int| 0 <= j <= i && parents[v] == Some(#[trigger] order2[j]) by {
        if v != start {
            if i < n {
                assert(graph.adjacent(order[i], v));
                let j = choose|j: int| 0 <= j <= i && parents[v] == Some(#[trigger] order[j]);
                assert(order2[j] == order[j]);
            } else {
                assert(parents.contains_key(v));
                let p = parents[v]->Some_0;
                if p == curr {
                    assert(order2[n] == curr);
                } else {
                    assert(order.contains(p));
                    let j = choose|j: int| 0 <= j < order.len() && order[j] == p;
                    assert(order2[j] == p);
                }
            }
        }
    }
}

/// A set of vertex indices below `n` holds at most `n` of them.
proof fn lemma_indices_bounded(s: Set<usize>, n: usize)
    requires
        forall|v: usize| s.contains(v) ==> v < n,
    ensures
        s.finite(),
        s.len() <= n,
{
    vstd::set_lib::range_set_properties::<usize>(0, n);
    let all = Set::<usize>::range(0, n);
    assert(s.subset_of(all));
    vstd::set_lib::lemma_len_subset(s, all);
}

/// The number that `bits` holds in sign-and-magnitude form: the top bit is the sign, the
/// other thirty-one bits are the magnitude. Both patterns of nought stand for 0.
pub open spec fn signed_magnitude(bits: u32) -> int {
    if bits < 0x8000_0000 {
        bits as int
    } else {
        -(bits - 0x8000_0000)
    }
}

/// The cost for a number held in sign-and-magnitude form, as IEEE 754 holds a number in
/// single precision: the pattern of a greater number gives a greater cost, so the fringe
/// orders the costs as the numbers are ordered. The patterns that stand for no number are
/// not told apart from the others.
pub fn key_of_bits(bits: u32) -> (key: i128)
    ensures
        key == signed_magnitude(bits),
{
    if bits < 0x8000_0000 {
        bits as i128
    } else {
        -((bits - 0x8000_0000) as i128)
    }
}

/// The costs of two patterns are ordered as their signs and magnitudes say: a pattern with
/// the sign bit set costs no more than one without it; of two without it the one of less
/// magnitude costs less, and of two with it the one of greater magnitude costs less.
pub proof fn lemma_key_order(a: u32, b: u32)
    ensures
        a < 0x8000_0000 && b < 0x8000_0000 ==> (signed_magnitude(a) <= signed_magnitude(b) <==> a
            <= b),
        a >= 0x8000_0000 && b >= 0x8000_0000 ==> (signed_magnitude(a) <= signed_magnitude(b) <==> a
            >= b),
        a >= 0x8000_0000 && b < 0x8000_0000 ==> signed_magnitude(a) <= signed_magnitude(b),
        signed_magnitude(a) == signed_magnitude(b) <==> a == b || (a == 0 && b == 0x8000_0000) || (a
            == 0x8000_0000 && b == 0),
{
}

/// A strategy of the wavefront search: what it keeps for each vertex it discovers, and the
/// cost by which the fringe orders that vertex.
///
/// The search holds one state per discovered vertex. It makes the state of the start with
/// `as_start`, and that of every other vertex with `as_adj` from the state of the vertex it
/// was first reached from; a state, once made, is never revised.
pub trait CostGuidedWaveTreeSearch<T>: Sized {
    /// Whether this is a state that the strategy gives to a vertex `depth` tree edges below
    /// the start. A strategy that does not say states nothing (every state is one).
    open spec fn at_depth(&self, depth: nat) -> bool {
        true
    }

    /// Whether `cost` is the cost of a vertex in this state. A strategy that does not say
    /// states nothing (every cost is one).
    open spec fn has_cost(&self, cost: i128) -> bool {
        true
    }

    /// The state of the vertex the search starts from.
    fn as_start(my_vertex_state: &T, stop_vertex_state: &T) -> (s: Self)
        ensures
            s.at_depth(0),
    ;

    /// The state of a vertex first reached from a vertex in state `parent`.
    fn as_adj(
        prev_vertex_state: &T,
        my_vertex_state: &T,
        stop_vertex_state: &T,
        parent: &Self,
    ) -> (s: Self)
        requires
            exists|d: nat| #[trigger] parent.at_depth(d) && d < usize::MAX,
        ensures
            forall|d: nat| #[trigger] parent.at_depth(d) ==> s.at_depth(d + 1),
    ;

    /// The cost by which the fringe orders a vertex in this state: least first.
    fn cost(&self) -> (c: i128)
        ensures
            self.has_cost(c),
    ;

    /// Searches `graph` from `start_idx` for `stop_idx`, with room for every vertex set
    /// aside at the start. It returns what `try_on_with_alloc` returns.
    fn try_on<'a>(graph: &'a Graph<T>, start_idx: usize, stop_idx: usize) -> (found:
        CostGuidedTreeSearchResult<'a, T>)
        requires
            start_idx < graph.size(),
            stop_idx < graph.size(),
        ensures
            searched_from(found, *graph, start_idx, stop_idx),
            forall|v: usize| #[trigger]
                found.discovered(v) ==> exists|s: Self| #[trigger]
                    s.at_depth(found.depths()[v]) && s.has_cost(found.costs()[v]),
            exists|states: Map<usize, Self>|
                {
                    &&& #[trigger] states.dom() == found.parents().dom()
                    &&& call_ensures(
                        Self::as_start,
                        (&graph.states()[start_idx as int], &graph.states()[stop_idx as int]),
                        states[start_idx],
                    )
                    &&& forall|v: usize| #[trigger]
                        found.discovered(v) && v != start_idx ==> (found.parents()[v] matches Some(
                            u,
                        ) && call_ensures(
                            Self::as_adj,
                            (
                                &graph.states()[u as int],
                                &graph.states()[v as int],
                                &graph.states()[stop_idx as int],
                                &states[u],
                            ),
                            states[v],
                        ))
                    &&& forall|v: usize| #[trigger]
                        found.discovered(v) ==> call_ensures(
                            Self::cost,
                            (&states[v],),
                            found.costs()[v],
                        )
                },
    {
        Self::try_on_with_alloc(graph, start_idx, stop_idx, graph.len())
    }

    /// Searches `graph` from `start_idx` for `stop_idx`, with room for `initial_alloc`
    /// vertices set aside at the start.
    ///
    /// The search takes the queued vertex of least cost, over and over. If that is
    /// `stop_idx` it has succeeded. Else it discovers every neighbour not discovered
    /// before: it makes the neighbour's state, notes the vertex it came from as its parent
    /// and queues it. When the queue runs empty the search has failed.
    ///
    /// The result is well formed, which says how it was arrived at up to the order among
    /// vertices of equal cost, and it has succeeded exactly if a walk leads from the start to
    /// the target. Each discovered vertex was queued with a cost that the strategy gives at
    /// its depth. And the strategy was asked as follows: the state of the start is an answer
    /// of `as_start` to the states of start and target in the graph; the state of every
    /// other vertex is an answer of `as_adj` to the states in the graph of its parent, of
    /// itself and of the target, and to the state of its parent; the cost of each vertex is
    /// an answer of `cost` on the state of that vertex.
    fn try_on_with_alloc<'a>(
        graph: &'a Graph<T>,
        start_idx: usize,
        stop_idx: usize,
        initial_alloc: usize,
    ) -> (found: CostGuidedTreeSearchResult<'a, T>)
        requires
            start_idx < graph.size(),
            stop_idx < graph.size(),
        ensures
            searched_from(found, *graph, start_idx, stop_idx),
            forall|v: usize| #[trigger]
                found.discovered(v) ==> exists|s: Self| #[trigger]
                    s.at_depth(found.depths()[v]) && s.has_cost(found.costs()[v]),
            exists|states: Map<usize, Self>|
                {
                    &&& #[trigger] states.dom() == found.parents().dom()
                    &&& call_ensures(
                        Self::as_start,
                        (&graph.states()[start_idx as int], &graph.states()[stop_idx as int]),
                        states[start_idx],
                    )
                    &&& forall|v: usize| #[trigger]
                        found.discovered(v) && v != start_idx ==> (found.parents()[v] matches Some(
                            u,
                        ) && call_ensures(
                            Self::as_adj,
                            (
                                &graph.states()[u as int],
                                &graph.states()[v as int],
                                &graph.states()[stop_idx as int],
                                &states[u],
                            ),
                            states[v],
                        ))
                    &&& forall|v: usize| #[trigger]
                        found.discovered(v) ==> call_ensures(
                            Self::cost,
                            (&states[v],),
                            found.costs()[v],
                        )
                },
    {
        proof {
            use_type_invariant(graph);
        }
        let size = graph.len();
        let start_search_state = Self::as_start(graph.state(start_idx), graph.state(stop_idx));
        let start_cost = start_search_state.cost();
        let mut parent_map: HashMap<usize, Option<usize>> = HashMap::with_capacity(initial_alloc);
        parent_map.insert(start_idx, None);
        let mut fringe = CostQueue::with_capacity(initial_alloc);
        fringe.push(start_cost, start_idx);
        let mut tree: HashMap<usize, Self> = HashMap::with_capacity(initial_alloc);
        tree.insert(start_idx, start_search_state);
        let ghost mut depths = Map::<usize, nat>::empty().insert(start_idx, 0nat);
        let ghost mut costs = Map::<usize, i128>::empty().insert(start_idx, start_cost);
        let ghost mut expanded = Set::<usize>::empty();
        let ghost mut order = Seq::<usize>::empty();
        proof {
            assert(parent_map@.dom() =~= Set::<usize>::empty().insert(start_idx));
            assert(tree@.dom() =~= parent_map@.dom());
            assert(parent_map@.dom().len() == 1);
        }
        loop
            invariant
                graph.wf(),
                size == graph.size(),
                start_idx < graph.size(),
                stop_idx < graph.size(),
                wave_ok(
                    *graph,
                    start_idx,
                    stop_idx,
                    parent_map@,
                    depths,
                    costs,
                    fringe@,
                    expanded,
                    None,
                ),
                trace_ok(*graph, start_idx, parent_map@, costs, expanded, order, None),
                tree@.dom() =~= parent_map@.dom(),
                forall|v: usize| #[trigger]
                    parent_map@.contains_key(v) ==> tree@[v].at_depth(depths[v])
                        && tree@[v].has_cost(costs[v]),
                call_ensures(
                    Self::as_start,
                    (&graph.states()[start_idx as int], &graph.states()[stop_idx as int]),
                    tree@[start_idx],
                ),
                forall|v: usize| #[trigger]
                    parent_map@.contains_key(v) && v != start_idx ==> (parent_map@[v] matches Some(
                        u,
                    ) && call_ensures(
                        Self::as_adj,
                        (
                            &graph.states()[u as int],
                            &graph.states()[v as int],
                            &graph.states()[stop_idx as int],
                            &tree@[u],
                        ),
                        tree@[v],
                    )),
                forall|v: usize| #[trigger]
                    parent_map@.contains_key(v) ==> call_ensures(
                        Self::cost,
                        (&tree@[v],),
                        costs[v],
                    ),
            ensures
                fringe@.len() == 0,
            decreases graph.size() - expanded.len(),
        {
            let ghost queued_before = fringe@;
            let curr_idx = match fringe.pop() {
                None => {
                    break ;
                },
                Some(least) => least.1,
            };
            let ghost curr_cost = costs[curr_idx];
            proof {
                assert(queued_before.count((curr_cost, curr_idx)) > 0);
                assert(fringe@ =~= queued_before.remove((curr_cost, curr_idx)));
                assert forall|v: usize| #[trigger]
                    parent_map@.contains_key(v) && !expanded.contains(v) implies curr_cost
                    <= costs[v] by {
                    if v != curr_idx {
                        assert(queued_before.count((costs[v], v)) > 0);
                    }
                }
            }
            if curr_idx == stop_idx {
                let found = conclude(
                    graph,
                    start_idx,
                    stop_idx,
                    true,
                    parent_map,
                    fringe,
                    Ghost(depths),
                    Ghost(costs),
                    Ghost(expanded),
                    Ghost(order),
                );
                proof {
                    assert forall|v: usize| #[trigger] found.discovered(v) implies exists|s: Self|
                     #[trigger]
                        s.at_depth(found.depths()[v]) && s.has_cost(found.costs()[v]) by {
                        assert(tree@[v].at_depth(depths[v]) && tree@[v].has_cost(costs[v]));
                    }
                    assert(tree@.dom() == found.parents().dom());
                }
                return found;
            }
            let neighbours = graph.neighbors(curr_idx);
            let ghost items = vstd::std_specs::iter::IteratorSpec::remaining(
                &vstd::std_specs::hash::spec_hash_keys_iter(neighbours),
            );
            for adj in it: neighbours.iter()
                invariant
                    graph.wf(),
                    start_idx < graph.size(),
                    stop_idx < graph.size(),
                    curr_idx < graph.size(),
                    curr_idx != stop_idx,
                        it.seq() == items,
                    items.unref().to_set() == graph.adjacency()[curr_idx as int],
                    forall|k: int| 0 <= k < it.index() ==> parent_map@.contains_key(*items[k]),
                    wave_ok(
                        *graph,
                        start_idx,
                        stop_idx,
                        parent_map@,
                        depths,
                        costs,
                        fringe@,
                        expanded,
                        Some(curr_idx),
                    ),
                    trace_ok(*graph, start_idx, parent_map@, costs, expanded, order, Some(curr_idx)),
                    curr_idx == start_idx || (parent_map@[curr_idx] matches Some(p)
                        && expanded.contains(p)),
                    forall|v: usize| #[trigger]
                        parent_map@.contains_key(v) && !expanded.contains(v) && (v == start_idx
                            || parent_map@[v] != Some(curr_idx)) ==> costs[curr_idx] <= costs[v],
                    tree@.dom() =~= parent_map@.dom(),
                    forall|v: usize| #[trigger]
                        parent_map@.contains_key(v) ==> tree@[v].at_depth(depths[v])
                            && tree@[v].has_cost(costs[v]),
                    call_ensures(
                        Self::as_start,
                        (&graph.states()[start_idx as int], &graph.states()[stop_idx as int]),
                        tree@[start_idx],
                    ),
                    forall|v: usize| #[trigger]
                        parent_map@.contains_key(v) && v != start_idx ==> (
                        parent_map@[v] matches Some(u) && call_ensures(
                            Self::as_adj,
                            (
                                &graph.states()[u as int],
                                &graph.states()[v as int],
                                &graph.states()[stop_idx as int],
                                &tree@[u],
                            ),
                            tree@[v],
                        )),
                    forall|v: usize| #[trigger]
                        parent_map@.contains_key(v) ==> call_ensures(
                            Self::cost,
                            (&tree@[v],),
                            costs[v],
                        ),
            {
                let adj_idx: usize = *adj;
                proof {
                    assert(items.unref()[it.index()] == adj_idx);
                    assert(items.unref().to_set().contains(adj_idx));
                    assert(graph.adjacent(curr_idx, adj_idx));
                }
                if tree.get(&adj_idx).is_none() {
                    proof {
                        vstd::std_specs::hash::axiom_spec_hash_map_len(&parent_map);
                        assert(tree@[curr_idx].at_depth(depths[curr_idx]));
                    }
                    let adj_search_state = Self::as_adj(
                        graph.state(curr_idx),
                        graph.state(adj_idx),
                        graph.state(stop_idx),
                        tree.get(&curr_idx).unwrap(),
                    );
                    let adj_cost = adj_search_state.cost();
                    let ghost parents_before = parent_map@;
                    let ghost queued = fringe@;
                    proof {
                        lemma_trace_discover(
                            *graph,
                            start_idx,
                            parent_map@,
                            costs,
                            expanded,
                            order,
                            curr_idx,
                            adj_idx,
                            adj_cost,
                        );
                    }
                    parent_map.insert(adj_idx, Some(curr_idx));
                    fringe.push(adj_cost, adj_idx);
                    tree.insert(adj_idx, adj_search_state);
                    proof {
                        let depth = depths[curr_idx] + 1;
                        depths = depths.insert(adj_idx, depth as nat);
                        costs = costs.insert(adj_idx, adj_cost);
                        assert(parent_map@.dom() =~= parents_before.dom().insert(adj_idx));
                        assert(queued.count((adj_cost, adj_idx)) == 0);
                    }
                }
            }
            proof {
                assert forall|w: usize| graph.adjacent(curr_idx, w) implies parent_map@.contains_key(
                    w,
                ) by {
                    assert(items.unref().to_set().contains(w));
                    let k = choose|k: int| 0 <= k < items.unref().len() && items.unref()[k] == w;
                    assert(*items[k] == w);
                }
                lemma_trace_expand(*graph, start_idx, parent_map@, costs, expanded, order, curr_idx);
                let grown = expanded.insert(curr_idx);
                lemma_indices_bounded(grown, size);
                expanded = grown;
                order = order.push(curr_idx);
            }
        }
        let found = conclude(
            graph,
            start_idx,
            stop_idx,
            false,
            parent_map,
            fringe,
            Ghost(depths),
            Ghost(costs),
            Ghost(expanded),
            Ghost(order),
        );
        proof {
            assert forall|v: usize| #[trigger] found.discovered(v) implies exists|s: Self|
             #[trigger]
                s.at_depth(found.depths()[v]) && s.has_cost(found.costs()[v]) by {
                assert(tree@[v].at_depth(depths[v]) && tree@[v].has_cost(costs[v]));
            }
            assert(tree@.dom() == found.parents().dom());
        }
        found
    }
}

/// Makes the result of a search that has ended: with `stop` taken from the queue, or with
/// the queue empty.
fn conclude<'a, T>(
    graph: &'a Graph<T>,
    start_idx: usize,
    stop_idx: usize,
    reached: bool,
    parent_map: HashMap<usize, Option<usize>>,
    fringe: CostQueue,
    Ghost(depths): Ghost<Map<usize, nat>>,
    Ghost(costs): Ghost<Map<usize, i128>>,
    Ghost(expanded): Ghost<Set<usize>>,
    Ghost(order): Ghost<Seq<usize>>,
) -> (found: CostGuidedTreeSearchResult<'a, T>)
    requires
        graph.wf(),
        start_idx < graph.size(),
        stop_idx < graph.size(),
        wave_ok(
            *graph,
            start_idx,
            stop_idx,
            parent_map@,
            depths,
            costs,
            fringe@,
            expanded,
            if reached {
                Some(stop_idx)
            } else {
                None
            },
        ),
        trace_ok(*graph, start_idx, parent_map@, costs, expanded, order, None),
        reached ==> forall|v: usize| #[trigger]
            parent_map@.contains_key(v) && !expanded.contains(v) ==> costs[stop_idx] <= costs[v],
        !reached ==> fringe@.len() == 0,
    ensures
        searched_from(found, *graph, start_idx, stop_idx),
        found.parents() == parent_map@,
        found.depths() == depths,
        found.costs() == costs,
{
    let ghost queued = fringe@;
    let sorted = fringe.into_sorted_vec();
    let mut frontier: Vec<usize> = Vec::with_capacity(sorted.len());
    let mut k: usize = 0;
    while k < sorted.len()
        invariant
            k <= sorted@.len(),
            frontier@.len() == k,
            forall|i: int| 0 <= i < k ==> frontier@[i] == sorted@[i].1,
        decreases sorted@.len() - k,
    {
        frontier.push(sorted[k].1);
        k = k + 1;
    }
    proof {
        let found = CostGuidedTreeSearchResult {
            graph,
            start_idx,
            stop_idx,
            reached,
            parent_map,
            fringe: frontier,
            depths: Ghost(depths),
            costs: Ghost(costs),
            expansion: Ghost(order),
        };
        let entries = sorted@;
        assert forall|i: int| 0 <= i < entries.len() implies queued.count(#[trigger] entries[i])
            == 1 by {
            assert(entries.contains(entries[i]));
        }
        assert forall|i: int, j: int|
            0 <= i < entries.len() && 0 <= j < entries.len() && i != j implies entries[i].1
            != entries[j].1 by {
            if entries[i].1 == entries[j].1 {
                assert(entries[i] == entries[j]);
                entries.lemma_multiset_has_no_duplicates_conv();
            }
        }
        assert forall|v: usize, w: usize|
            found.expanded(v) && #[trigger] found.searched().adjacent(v, w) implies found.discovered(
            w,
        ) by {
            if !expanded.contains(v) {
                assert(queued.count((costs[v], v)) > 0);
                assert(entries.contains((costs[v], v)));
                let i = choose|i: int| 0 <= i < entries.len() && entries[i] == (costs[v], v);
                assert(found.frontier()[i] == v);
            }
        }
        if !reached && parent_map@.contains_key(stop_idx) {
            assert(expanded.contains(stop_idx));
        }
        assert forall|v: usize| found.expanded(v) <==> #[trigger] order.contains(v) by {
            if order.contains(v) {
                assert(expanded.contains(v));
                if found.frontier().contains(v) {
                    let i = choose|i: int| 0 <= i < entries.len() && found.frontier()[i] == v;
                    assert(queued.count(entries[i]) == 1);
                }
            }
            if found.expanded(v) && !expanded.contains(v) {
                assert(queued.count((costs[v], v)) > 0);
                assert(entries.contains((costs[v], v)));
                let i = choose|i: int| 0 <= i < entries.len() && entries[i] == (costs[v], v);
                assert(found.frontier()[i] == v);
            }
        }
        if reached {
            let n = order.len() as int;
            assert(order.take(n) =~= order);
            if stop_idx != start_idx {
                let p = parent_map@[stop_idx]->Some_0;
                assert(order.contains(p));
                let j = choose|j: int| 0 <= j < order.len() && order[j] == p;
                assert(parent_map@[stop_idx] == Some(order[j]));
            }
            assert(found.waiting(stop_idx, n));
            assert forall|v: usize| #[trigger] found.waiting(v, n) implies costs[stop_idx]
                <= costs[v] by {
                assert(!order.contains(v));
            }
        }
        assert forall|k: int| reached && 0 <= k < found.frontier().len() implies costs[stop_idx]
            <= costs[#[trigger] found.frontier()[k]] by {
            assert(queued.count(entries[k]) == 1);
        }
        assert(found.wf());
    }
    let found = CostGuidedTreeSearchResult {
        graph,
        start_idx,
        stop_idx,
        reached,
        parent_map,
        fringe: frontier,
        depths: Ghost(depths),
        costs: Ghost(costs),
        expansion: Ghost(order),
    };
    proof {
        lemma_success_iff_reachable(found);
    }
    found
}

/// The tree path to a discovered vertex `v` is a walk in the searched graph. It begins at
/// the start, ends at `v`, and has one vertex more than `v` lies tree edges below the start.
/// Every vertex on it is discovered, lies as deep as its place in the path, and is the
/// parent of the next.
pub proof fn lemma_chain_is_walk<T>(found: CostGuidedTreeSearchResult<'_, T>, v: usize)
    requires
        found.wf(),
        found.discovered(v),
    ensures
        found.searched().is_walk(found.chain(v, found.depths()[v])),
        found.chain(v, found.depths()[v]).len() == found.depths()[v] + 1,
        found.chain(v, found.depths()[v]).first() == found.start(),
        found.chain(v, found.depths()[v]).last() == v,
        forall|k: int|
            0 <= k < found.chain(v, found.depths()[v]).len() ==> found.discovered(
                #[trigger] found.chain(v, found.depths()[v])[k],
            ) && found.depths()[found.chain(v, found.depths()[v])[k]] == k,
        forall|k: int|
            0 < k < found.chain(v, found.depths()[v]).len() ==> found.parents()[#[trigger] found.chain(
                v,
                found.depths()[v],
            )[k]] == Some(found.chain(v, found.depths()[v])[k - 1]),
    decreases found.depths()[v],
{
    let d = found.depths()[v];
    if v != found.start() {
        let u = found.parents()[v]->Some_0;
        lemma_chain_is_walk(found, u);
        let above = found.chain(u, found.depths()[u]);
        let path = found.chain(v, d);
        assert(path == above.push(v));
        assert forall|k: int| 0 <= k < path.len() - 1 implies found.searched().adjacent(
            #[trigger] path[k],
            path[k + 1],
        ) by {
            if k < above.len() - 1 {
                assert(found.searched().adjacent(above[k], above[k + 1]));
            }
        }
    }
}

/// After a failed search, every vertex on a walk that begins at the start is discovered.
proof fn lemma_walk_stays_discovered<T>(
    found: CostGuidedTreeSearchResult<'_, T>,
    walk: Seq<usize>,
    k: int,
)
    requires
        found.wf(),
        !found.succeeded(),
        found.searched().is_walk(walk),
        walk.first() == found.start(),
        0 <= k < walk.len(),
    ensures
        found.discovered(walk[k]),
    decreases k,
{
    if k > 0 {
        lemma_walk_stays_discovered(found, walk, k - 1);
        assert(found.expanded(walk[k - 1]));
        assert(found.searched().adjacent(walk[k - 1], walk[k - 1 + 1]));
    }
}

/// A search succeeds exactly if its target can be reached from its start: whether it does
/// is a matter of the graph alone, not of the strategy.
pub proof fn lemma_success_iff_reachable<T>(found: CostGuidedTreeSearchResult<'_, T>)
    requires
        found.wf(),
    ensures
        found.succeeded() == found.searched().reachable(found.start(), found.stop()),
{
    if found.succeeded() {
        lemma_chain_is_walk(found, found.stop());
        assert(found.searched().is_walk(found.chain(found.stop(), found.depths()[found.stop()])));
    } else {
        if found.searched().reachable(found.start(), found.stop()) {
            let walk = choose|walk: Seq<usize>| #[trigger]
                found.searched().is_walk(walk) && walk.first() == found.start() && walk.last()
                    == found.stop();
            lemma_walk_stays_discovered(found, walk, walk.len() - 1);
        }
    }
}

/// The tree path to the start of a search is the start alone.
pub proof fn lemma_path_to_start<T>(found: CostGuidedTreeSearchResult<'_, T>)
    requires
        found.wf(),
    ensures
        found.path_spec(found.start()) == Some(seq![found.start()]),
{
}

/// A search has succeeded exactly if its target is a key of its parent map.
pub proof fn lemma_success_iff_target_discovered<T>(found: CostGuidedTreeSearchResult<'_, T>)
    requires
        found.wf(),
    ensures
        found.succeeded() == found.parents().contains_key(found.stop()),
{
}

/// Two answers of `path_to` for the same result and the same vertex are the same: both
/// absent, or both the same list of vertices.
pub proof fn lemma_path_to_is_determined<T>(
    found: CostGuidedTreeSearchResult<'_, T>,
    goal: usize,
    first: Option<Seq<usize>>,
    second: Option<Seq<usize>>,
)
    requires
        first is Some == found.discovered(goal),
        first matches Some(p) ==> found.path_spec(goal) == Some(p),
        second is Some == found.discovered(goal),
        second matches Some(p) ==> found.path_spec(goal) == Some(p),
    ensures
        first == second,
{
}

/// Two searches of one graph between the same two vertices agree on success, whatever
/// their strategies.
pub proof fn lemma_strategies_agree<T>(
    one: CostGuidedTreeSearchResult<'_, T>,
    other: CostGuidedTreeSearchResult<'_, T>,
)
    requires
        one.wf(),
        other.wf(),
        one.searched() == other.searched(),
        one.start() == other.start(),
        one.stop() == other.stop(),
    ensures
        one.succeeded() == other.succeeded(),
{
    lemma_success_iff_reachable(one);
    lemma_success_iff_reachable(other);
}

/// Whether every vertex that `found` discovered was queued with a cost that breadth-first
/// search gives at the vertex's depth: what `BFS::try_on` promises of its result.
pub open spec fn queued_by_bfs<T>(found: CostGuidedTreeSearchResult<'_, T>) -> bool {
    forall|v: usize| #[trigger]
        found.discovered(v) ==> exists|s: BFS| #[trigger]
            CostGuidedWaveTreeSearch::<T>::at_depth(&s, found.depths()[v])
                && CostGuidedWaveTreeSearch::<T>::has_cost(&s, found.costs()[v])
}

/// Whether every vertex that `found` discovered was queued with a cost that depth-first
/// search gives at the vertex's depth: what `DFS::try_on` promises of its result.
pub open spec fn queued_by_dfs<T>(found: CostGuidedTreeSearchResult<'_, T>) -> bool {
    forall|v: usize| #[trigger]
        found.discovered(v) ==> exists|s: DFS| #[trigger]
            CostGuidedWaveTreeSearch::<T>::at_depth(&s, found.depths()[v])
                && CostGuidedWaveTreeSearch::<T>::has_cost(&s, found.costs()[v])
}

/// After a breadth-first search, the cost of a discovered vertex `v` is its number of hops
/// from the start: one less than the length of the tree path to `v`. Along that path the
/// cost of the `k`-th vertex is `k`, so it never falls from one vertex to the next.
pub proof fn lemma_bfs_cost_is_hops<T>(found: CostGuidedTreeSearchResult<'_, T>, v: usize)
    requires
        found.wf(),
        queued_by_bfs(found),
        found.discovered(v),
    ensures
        found.path_spec(v) matches Some(path) && {
            &&& found.costs()[v] == path.len() - 1
            &&& forall|k: int| 0 <= k < path.len() ==> found.costs()[#[trigger] path[k]] == k
            &&& forall|i: int, j: int|
                0 <= i <= j < path.len() ==> found.costs()[path[i]] <= found.costs()[path[j]]
        },
{
    lemma_chain_is_walk(found, v);
    let path = found.chain(v, found.depths()[v]);
    assert forall|k: int| 0 <= k < path.len() implies found.costs()[#[trigger] path[k]] == k by {
        assert(found.discovered(path[k]));
    }
}

/// Whether every discovered vertex was queued with its depth in the tree as its cost.
spec fn costs_are_depths<T>(found: CostGuidedTreeSearchResult<'_, T>) -> bool {
    forall|v: usize| #[trigger] found.discovered(v) ==> found.costs()[v] == found.depths()[v]
}

/// What the order of expansion and the tree have in common where costs are depths: the
/// part of a result's invariant that the order of depths rests on.
spec fn layered(
    start: usize,
    parents: Map<usize, Option<usize>>,
    depths: Map<usize, nat>,
    costs: Map<usize, i128>,
    order: Seq<usize>,
) -> bool {
    &&& order.no_duplicates()
    &&& forall|i: int|
        0 <= i < order.len() ==> #[trigger] waiting_in(parents, order, start, order[i], i)
    &&& forall|i: int, v: usize|
        0 <= i < order.len() && #[trigger] waiting_in(parents, order, start, v, i) ==> costs[order[i]]
            <= costs[v]
    &&& forall|v: usize| #[trigger]
        parents.contains_key(v) && v != start ==> parents[v] is Some && depths[v]
            == depths[parents[v]->Some_0] + 1
    &&& forall|v: usize| #[trigger] parents.contains_key(v) ==> costs[v] == depths[v]
}

/// A well-formed result whose costs are depths is layered.
proof fn lemma_layered<T>(found: CostGuidedTreeSearchResult<'_, T>)
    requires
        found.wf(),
        costs_are_depths(found),
    ensures
        layered(found.start(), found.parents(), found.depths(), found.costs(), found.expansion()),
{
    assert forall|v: usize| #[trigger] found.parents().contains_key(v) implies found.costs()[v]
        == found.depths()[v] by {
        assert(found.discovered(v));
    }
}

/// Where costs are depths, the vertices were expanded in order of depth.
proof fn lemma_expansion_by_depth(
    start: usize,
    parents: Map<usize, Option<usize>>,
    depths: Map<usize, nat>,
    costs: Map<usize, i128>,
    order: Seq<usize>,
    i: int,
    j: int,
)
    requires
        layered(start, parents, depths, costs, order),
        0 <= i <= j < order.len(),
    ensures
        depths[order[i]] <= depths[order[j]],
    decreases j,
{
    let v = order[j];
    assert(waiting_in(parents, order, start, v, j));
    assert(waiting_in(parents, order, start, order[i], i));
    if i < j {
        assert(!order.take(i).contains(v)) by {
            if order.take(i).contains(v) {
                let k = choose|k: int| 0 <= k < order.take(i).len() && order.take(i)[k] == v;
                assert(order[k] == order[j]);
            }
        }
        if v == start {
            assert(waiting_in(parents, order, start, v, i));
        } else {
            let m = choose|m: int|
                0 <= m < j && m < order.len() && parents[v] == Some(#[trigger] order[m]);
            if m < i {
                assert(waiting_in(parents, order, start, v, i));
            } else {
                lemma_expansion_by_depth(start, parents, depths, costs, order, i, m);
            }
        }
    }
}

/// Where costs are depths, a discovered vertex that was not expanded lies as deep as any
/// expanded one.
proof fn lemma_waiting_lies_deepest(
    start: usize,
    parents: Map<usize, Option<usize>>,
    depths: Map<usize, nat>,
    costs: Map<usize, i128>,
    order: Seq<usize>,
    v: usize,
    i: int,
)
    requires
        layered(start, parents, depths, costs, order),
        parents.contains_key(v),
        !order.contains(v),
        v == start || (parents[v] matches Some(p) && order.contains(p)),
        0 <= i < order.len(),
    ensures
        depths[order[i]] <= depths[v],
{
    assert(waiting_in(parents, order, start, order[i], i));
    assert(!order.take(i).contains(v)) by {
        if order.take(i).contains(v) {
            let k = choose|k: int| 0 <= k < order.take(i).len() && order.take(i)[k] == v;
            assert(order[k] == v);
        }
    }
    if v == start {
        assert(waiting_in(parents, order, start, v, i));
    } else {
        let p = parents[v]->Some_0;
        let m = choose|m: int| 0 <= m < order.len() && order[m] == p;
        if m < i {
            assert(waiting_in(parents, order, start, v, i));
        } else {
            lemma_expansion_by_depth(start, parents, depths, costs, order, i, m);
        }
    }
}

/// Where costs are depths, a vertex lies at most one edge deeper than any expanded
/// neighbour.
proof fn lemma_one_deeper_than_neighbour<T>(
    found: CostGuidedTreeSearchResult<'_, T>,
    u: usize,
    v: usize,
)
    requires
        found.wf(),
        costs_are_depths(found),
        found.expansion().contains(u),
        found.searched().adjacent(u, v),
    ensures
        found.discovered(v),
        found.depths()[v] <= found.depths()[u] + 1,
{
    let order = found.expansion();
    let i = choose|i: int| 0 <= i < order.len() && order[i] == u;
    assert(found.expanded(u));
    assert(found.searched().adjacent(order[i], v));
    if v != found.start() {
        let j = choose|j: int| 0 <= j <= i && found.parents()[v] == Some(#[trigger] order[j]);
        lemma_layered(found);
        lemma_expansion_by_depth(
            found.start(),
            found.parents(),
            found.depths(),
            found.costs(),
            order,
            j,
            i,
        );
    }
}

/// Where costs are depths: along a walk from the start, a discovered vertex lies no deeper
/// than its place in the walk; and once the walk has passed a vertex that was not expanded,
/// no expanded vertex lies deeper than that place either.
proof fn lemma_depth_along_walk<T>(
    found: CostGuidedTreeSearchResult<'_, T>,
    walk: Seq<usize>,
    k: int,
)
    requires
        found.wf(),
        costs_are_depths(found),
        found.searched().is_walk(walk),
        walk.first() == found.start(),
        0 <= k < walk.len(),
    ensures
        found.discovered(walk[k]) ==> found.depths()[walk[k]] <= k,
        (exists|t: int| 0 <= t <= k && !found.expansion().contains(#[trigger] walk[t]))
            ==> forall|i: int|
            0 <= i < found.expansion().len() ==> found.depths()[#[trigger] found.expansion()[i]]
                <= k,
    decreases k,
{
    let order = found.expansion();
    if k > 0 {
        lemma_depth_along_walk(found, walk, k - 1);
        assert(found.searched().adjacent(walk[k - 1], walk[k - 1 + 1]));
        if order.contains(walk[k - 1]) {
            lemma_one_deeper_than_neighbour(found, walk[k - 1], walk[k]);
            assert(found.expanded(walk[k - 1]));
        } else {
            assert(!order.contains(walk[k - 1]));
            if found.discovered(walk[k]) && walk[k] != found.start() {
                let p = found.parents()[walk[k]]->Some_0;
                assert(order.contains(p));
                let m = choose|m: int| 0 <= m < order.len() && order[m] == p;
                assert(found.depths()[order[m]] <= k - 1);
            }
        }
    }
    if exists|t: int| 0 <= t <= k && !order.contains(#[trigger] walk[t]) {
        let t = choose|t: int| 0 <= t <= k && !order.contains(#[trigger] walk[t]);
        if t < k {
            assert(!order.contains(walk[t]));
        } else {
            if k > 0 && !order.contains(walk[k - 1]) {
            } else {
                assert(found.discovered(walk[k]));
                assert forall|i: int| 0 <= i < order.len() implies found.depths()[#[trigger] order[i]]
                    <= k by {
                    lemma_layered(found);
                    lemma_waiting_lies_deepest(
                        found.start(),
                        found.parents(),
                        found.depths(),
                        found.costs(),
                        order,
                        walk[k],
                        i,
                    );
                }
            }
        }
    }
}

/// Breadth-first search finds paths of fewest hops: the tree path to a discovered vertex
/// has no more vertices than any walk in the graph from the start to that vertex.
pub proof fn lemma_bfs_paths_are_shortest<T>(
    found: CostGuidedTreeSearchResult<'_, T>,
    v: usize,
    walk: Seq<usize>,
)
    requires
        found.wf(),
        queued_by_bfs(found),
        found.discovered(v),
        found.searched().is_walk(walk),
        walk.first() == found.start(),
        walk.last() == v,
    ensures
        found.path_spec(v) matches Some(path) && path.len() <= walk.len(),
{
    assert(costs_are_depths(found)) by {
        assert forall|u: usize| #[trigger] found.discovered(u) implies found.costs()[u]
            == found.depths()[u] by {}
    }
    lemma_depth_along_walk(found, walk, walk.len() - 1);
    lemma_chain_is_walk(found, v);
}

/// After a depth-first search, the cost of a discovered vertex is its depth in the tree,
/// negated: each tree edge further from the start, a vertex costs one less.
pub proof fn lemma_dfs_cost_falls_with_depth<T>(found: CostGuidedTreeSearchResult<'_, T>, v: usize)
    requires
        found.wf(),
        queued_by_dfs(found),
        found.discovered(v),
    ensures
        found.costs()[v] == -(found.depths()[v] as int),
        v != found.start() ==> (found.parents()[v] matches Some(u) && found.costs()[v]
            == found.costs()[u] - 1),
{
    if v != found.start() {
        let u = found.parents()[v]->Some_0;
        assert(found.discovered(u));
    }
}

/// Depth-first search, as near as a priority queue comes to it: the deeper a vertex lies in
/// the tree, the sooner it is expanded.
#[derive(Debug)]
pub struct DFS {
    order: i128,
}

impl View for DFS {
    type V = int;

    /// The cost of a vertex in this state: nought at the start, one less with every tree
    /// edge away from it.
    closed spec fn view(&self) -> int {
        self.order as int
    }
}

impl<T> CostGuidedWaveTreeSearch<T> for DFS {
    /// A state at depth `d` costs `-d`.
    open spec fn at_depth(&self, depth: nat) -> bool {
        self@ == -(depth as int)
    }

    /// The cost is the view of the state.
    open spec fn has_cost(&self, cost: i128) -> bool {
        cost == self@
    }

    /// The state of the start costs nought, wherever start and target lie.
    fn as_start(_my_vertex_state: &T, _stop_vertex_state: &T) -> (s: Self)
        ensures
            s@ == 0,
    {
        DFS { order: 0 }
    }

    /// The state of a vertex costs one less than that of the vertex it was reached from,
    /// wherever the vertices lie.
    fn as_adj(
        _prev_vertex_state: &T,
        _my_vertex_state: &T,
        _stop_vertex_state: &T,
        parent: &Self,
    ) -> (s: Self)
        ensures
            s@ == parent@ - 1,
    {
        DFS { order: parent.order - 1 }
    }

    /// The cost is the view of the state, as `has_cost` says.
    fn cost(&self) -> (c: i128) {
        self.order
    }
}

/// Breadth-first search: a vertex costs the number of tree edges from the start to it.
#[derive(Debug)]
pub struct BFS {
    jumps_from_start: usize,
}

impl View for BFS {
    type V = nat;

    /// The cost of a vertex in this state: its number of jumps from the start.
    closed spec fn view(&self) -> nat {
        self.jumps_from_start as nat
    }
}

impl<T> CostGuidedWaveTreeSearch<T> for BFS {
    /// A state at depth `d` counts `d` jumps.
    open spec fn at_depth(&self, depth: nat) -> bool {
        self@ == depth
    }

    /// The cost is the number of jumps.
    open spec fn has_cost(&self, cost: i128) -> bool {
        cost == self@
    }

    /// The state of the start counts no jump, wherever start and target lie.
    fn as_start(_my_vertex_state: &T, _stop_vertex_state: &T) -> (s: Self)
        ensures
            s@ == 0,
    {
        BFS { jumps_from_start: 0 }
    }

    /// The state of a vertex counts one jump more than that of the vertex it was reached
    /// from, wherever the vertices lie.
    fn as_adj(
        _prev_vertex_state: &T,
        _my_vertex_state: &T,
        _stop_vertex_state: &T,
        parent: &Self,
    ) -> (s: Self)
        ensures
            s@ == parent@ + 1,
    {
        BFS { jumps_from_start: parent.jumps_from_start + 1 }
    }

    /// The cost is the view of the state, as `has_cost` says.
    fn cost(&self) -> (c: i128) {
        self.jumps_from_start as i128
    }
}

/// A depth-first state at depth `depth` costs `-depth`.
pub proof fn lemma_dfs_cost_at_depth<T>(state: DFS, depth: nat, cost: i128)
    requires
        CostGuidedWaveTreeSearch::<T>::at_depth(&state, depth),
        CostGuidedWaveTreeSearch::<T>::has_cost(&state, cost),
    ensures
        cost == -(depth as int),
{
}

/// A breadth-first state at depth `depth` costs `depth`.
pub proof fn lemma_bfs_cost_at_depth<T>(state: BFS, depth: nat, cost: i128)
    requires
        CostGuidedWaveTreeSearch::<T>::at_depth(&state, depth),
        CostGuidedWaveTreeSearch::<T>::has_cost(&state, cost),
    ensures
        cost == depth,
{
}

} // verus!
