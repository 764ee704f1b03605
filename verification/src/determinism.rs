use crate::graph::Graph;
use crate::search::{expansion_ok, waiting_in, CostGuidedTreeSearchResult, CostGuidedWaveTreeSearch};
use vstd::prelude::*;

verus! {

/// Whether the strategy `S` has one answer to each question: two states that `as_start` or
/// `as_adj` may give to the same arguments are the same state, and so are two costs that
/// `cost` may give of the same state.
pub open spec fn single_valued<T, S: CostGuidedWaveTreeSearch<T>>() -> bool {
    &&& forall|my: &T, stop: &T, s: S, t: S|
        #[trigger] call_ensures(S::as_start, (my, stop), s) && #[trigger] call_ensures(
            S::as_start,
            (my, stop),
            t,
        ) ==> s == t
    &&& forall|prev: &T, my: &T, stop: &T, parent: &S, s: S, t: S|
        #[trigger] call_ensures(S::as_adj, (prev, my, stop, parent), s) && #[trigger] call_ensures(
            S::as_adj,
            (prev, my, stop, parent),
            t,
        ) ==> s == t
    &&& forall|state: &S, c: i128, d: i128|
        #[trigger] call_ensures(S::cost, (state,), c) && #[trigger] call_ensures(
            S::cost,
            (state,),
            d,
        ) ==> c == d
}

/// Whether `states` holds the states by which the strategy `S` came to the costs of
/// `found`: the state of the start is an answer of `as_start`, the state of every other
/// discovered vertex is an answer of `as_adj` to the state of its parent, and the cost of
/// each is an answer of `cost`.
pub open spec fn derived_by<T, S: CostGuidedWaveTreeSearch<T>>(
    found: CostGuidedTreeSearchResult<'_, T>,
    states: Map<usize, S>,
) -> bool {
    let placed = found.searched().states();
    &&& call_ensures(
        S::as_start,
        (&placed[found.start() as int], &placed[found.stop() as int]),
        states[found.start()],
    )
    &&& forall|v: usize| #[trigger]
        found.discovered(v) && v != found.start() ==> (found.parents()[v] matches Some(u)
            && call_ensures(
            S::as_adj,
            (&placed[u as int], &placed[v as int], &placed[found.stop() as int], &states[u]),
            states[v],
        ))
    &&& forall|v: usize| #[trigger]
        found.discovered(v) ==> call_ensures(S::cost, (&states[v],), found.costs()[v])
}

/// Whether `found` is the result of a search by the strategy `S`: there are states, one
/// for each discovered vertex, by which `S` came to its costs. This is what `try_on` and
/// `try_on_with_alloc` promise of their results.
pub open spec fn searched_by<T, S: CostGuidedWaveTreeSearch<T>>(
    found: CostGuidedTreeSearchResult<'_, T>,
) -> bool {
    exists|states: Map<usize, S>|
        {
            &&& #[trigger] states.dom() == found.parents().dom()
            &&& derived_by(found, states)
        }
}

/// Whether no two vertices that `found` discovered were queued with the same cost.
pub open spec fn untied<T>(found: CostGuidedTreeSearchResult<'_, T>) -> bool {
    forall|u: usize, v: usize|
        found.discovered(u) && found.discovered(v) && u != v ==> #[trigger] found.costs()[u]
            != #[trigger] found.costs()[v]
}

/// What a search went through, as far as the order of its steps rests on it.
struct Run<S> {
    succeeded: bool,
    parents: Map<usize, Option<usize>>,
    costs: Map<usize, i128>,
    states: Map<usize, S>,
    order: Seq<usize>,
}

/// Whether `v` was discovered when the first `done` vertices of the order were expanded.
spec fn known<S>(run: Run<S>, start: usize, v: usize, done: int) -> bool {
    &&& run.parents.contains_key(v)
    &&& (v == start || exists|j: int|
        0 <= j < done && j < run.order.len() && run.parents[v] == Some(#[trigger] run.order[j]))
}

/// The part of a result's invariant, and of what its search promises, that fixes the
/// order of its steps.
spec fn sound<T, S: CostGuidedWaveTreeSearch<T>>(
    graph: Graph<T>,
    start: usize,
    stop: usize,
    run: Run<S>,
) -> bool {
    let placed = graph.states();
    let n = run.order.len() as int;
    &&& expansion_ok(graph, start, run.parents, run.costs, run.order)
    &&& run.parents.contains_key(start)
    &&& run.parents[start] is None
    &&& run.succeeded == run.parents.contains_key(stop)
    &&& forall|v: usize| #[trigger]
        run.parents.contains_key(v) && v != start ==> (run.parents[v] matches Some(u)
            && graph.adjacent(u, v) && run.order.contains(u) && call_ensures(
            S::as_adj,
            (&placed[u as int], &placed[v as int], &placed[stop as int], &run.states[u]),
            run.states[v],
        ))
    &&& forall|v: usize| #[trigger]
        run.parents.contains_key(v) ==> call_ensures(S::cost, (&run.states[v],), run.costs[v])
    &&& call_ensures(S::as_start, (&placed[start as int], &placed[stop as int]), run.states[start])
    &&& forall|i: int, w: usize|
        0 <= i < n && #[trigger] graph.adjacent(run.order[i], w) ==> run.parents.contains_key(w)
    &&& forall|i: int| 0 <= i < n ==> #[trigger] run.order[i] != stop
    &&& run.succeeded ==> waiting_in(run.parents, run.order, start, stop, n)
    &&& forall|v: usize|
        run.succeeded && #[trigger] waiting_in(run.parents, run.order, start, v, n)
            ==> run.costs[stop] <= run.costs[v]
    &&& forall|v: usize| !run.succeeded && #[trigger] run.parents.contains_key(v) ==> run.order.contains(v)
    &&& forall|u: usize, v: usize|
        run.parents.contains_key(u) && run.parents.contains_key(v) && u != v
            ==> #[trigger] run.costs[u] != #[trigger] run.costs[v]
}

/// Whether two runs are the same up to the first `done` expansions: the same vertices were
/// expanded, the same were discovered, and these have the same parents, states and costs.
spec fn alike<S>(one: Run<S>, other: Run<S>, start: usize, done: int) -> bool {
    &&& 0 <= done <= one.order.len()
    &&& done <= other.order.len()
    &&& forall|k: int| 0 <= k < done ==> one.order[k] == other.order[k]
    &&& forall|v: usize| #[trigger] known(one, start, v, done) ==> known(other, start, v, done)
    &&& forall|v: usize| #[trigger] known(other, start, v, done) ==> known(one, start, v, done)
    &&& forall|v: usize| #[trigger]
        known(one, start, v, done) ==> one.parents[v] == other.parents[v] && one.states[v]
            == other.states[v] && one.costs[v] == other.costs[v]
}

/// The run of a well-formed result whose costs were derived by `states`.
spec fn run_of<T, S>(found: CostGuidedTreeSearchResult<'_, T>, states: Map<usize, S>) -> Run<S> {
    Run {
        succeeded: found.succeeded(),
        parents: found.parents(),
        costs: found.costs(),
        states,
        order: found.expansion(),
    }
}

/// The run of a well-formed result without ties is sound.
proof fn lemma_run_is_sound<T, S: CostGuidedWaveTreeSearch<T>>(
    found: CostGuidedTreeSearchResult<'_, T>,
    states: Map<usize, S>,
)
    requires
        found.wf(),
        derived_by(found, states),
        untied(found),
    ensures
        sound(found.searched(), found.start(), found.stop(), run_of(found, states)),
{
    let run = run_of(found, states);
    let graph = found.searched();
    assert forall|v: usize| #[trigger]
        run.parents.contains_key(v) && v != found.start() implies (run.parents[v] matches Some(u)
        && graph.adjacent(u, v) && run.order.contains(u) && call_ensures(
        S::as_adj,
        (
            &graph.states()[u as int],
            &graph.states()[v as int],
            &graph.states()[found.stop() as int],
            &run.states[u],
        ),
        run.states[v],
    )) by {
        assert(found.discovered(v));
    }
    assert forall|v: usize| #[trigger] run.parents.contains_key(v) implies call_ensures(
        S::cost,
        (&run.states[v],),
        run.costs[v],
    ) by {
        assert(found.discovered(v));
    }
    assert forall|i: int, w: usize|
        0 <= i < run.order.len() && #[trigger] graph.adjacent(
            run.order[i],
            w,
        ) implies run.parents.contains_key(w) by {
        assert(found.expansion().contains(run.order[i]));
        assert(found.expanded(run.order[i]));
    }
    assert forall|i: int| 0 <= i < run.order.len() implies #[trigger] run.order[i]
        != found.stop() by {
        assert(found.expansion().contains(run.order[i]));
        assert(found.expanded(run.order[i]));
    }
    assert forall|v: usize| !run.succeeded && #[trigger] run.parents.contains_key(
        v,
    ) implies run.order.contains(v) by {
        assert(found.discovered(v));
        assert(found.expanded(v));
    }
    assert forall|u: usize, v: usize|
        run.parents.contains_key(u) && run.parents.contains_key(v) && u != v implies #[trigger] run.costs[u]
        != #[trigger] run.costs[v] by {
        assert(found.discovered(u) && found.discovered(v));
    }
    assert forall|v: usize|
        run.succeeded && #[trigger] waiting_in(
            run.parents,
            run.order,
            found.start(),
            v,
            run.order.len() as int,
        ) implies run.costs[found.stop()] <= run.costs[v] by {
        assert(found.waiting(v, found.expansion().len() as int));
    }
}

/// Two runs that are alike are so whichever is named first.
proof fn lemma_alike_swap<S>(one: Run<S>, other: Run<S>, start: usize, done: int)
    requires
        alike(one, other, start, done),
    ensures
        alike(other, one, start, done),
{
    assert forall|v: usize| #[trigger] known(other, start, v, done) implies other.parents[v]
        == one.parents[v] && other.states[v] == one.states[v] && other.costs[v]
        == one.costs[v] by {
        assert(known(one, start, v, done));
    }
}

/// A vertex that is not among the first `done` of an order is not in that part of it.
proof fn lemma_not_taken(order: Seq<usize>, v: usize, done: int)
    requires
        0 <= done <= order.len(),
        forall|k: int| 0 <= k < done ==> order[k] != v,
    ensures
        !order.take(done).contains(v),
{
    if order.take(done).contains(v) {
        let k = choose|k: int| 0 <= k < order.take(done).len() && order.take(done)[k] == v;
        assert(order[k] == v);
    }
}

/// Of two sound runs that are alike up to an expansion that the one has, the other has that
/// expansion too, and of the same vertex.
proof fn lemma_next_is_shared<T, S: CostGuidedWaveTreeSearch<T>>(
    graph: Graph<T>,
    start: usize,
    stop: usize,
    one: Run<S>,
    other: Run<S>,
    i: int,
)
    requires
        sound(graph, start, stop, one),
        sound(graph, start, stop, other),
        alike(one, other, start, i),
        i < one.order.len(),
    ensures
        i < other.order.len(),
        one.order[i] == other.order[i],
{
    let x = one.order[i];
    assert(waiting_in(one.parents, one.order, start, x, i));
    assert(known(one, start, x, i));
    assert(known(other, start, x, i));
    assert(one.order.contains(x));
    assert forall|k: int| 0 <= k < i implies other.order[k] != x by {
        assert(one.order[k] == other.order[k]);
    }
    lemma_not_taken(other.order, x, i);
    assert(waiting_in(other.parents, other.order, start, x, i));
    if other.order.len() == i {
        assert(other.order.take(i) =~= other.order);
        if other.succeeded {
            assert(waiting_in(other.parents, other.order, start, stop, i));
            assert(known(other, start, stop, i));
            assert(known(one, start, stop, i));
            lemma_not_taken(one.order, stop, i);
            assert(waiting_in(one.parents, one.order, start, stop, i));
            assert(one.costs[x] <= one.costs[stop]);
            assert(other.costs[stop] <= other.costs[x]);
            assert(one.costs[x] == other.costs[x]);
            assert(one.costs[stop] == other.costs[stop]);
            assert(x != stop);
            assert(false);
        } else {
            assert(other.order.contains(x));
            assert(false);
        }
    }
    let y = other.order[i];
    assert(waiting_in(other.parents, other.order, start, y, i));
    assert(known(other, start, y, i));
    assert(known(one, start, y, i));
    assert forall|k: int| 0 <= k < i implies one.order[k] != y by {
        assert(one.order[k] == other.order[k]);
    }
    lemma_not_taken(one.order, y, i);
    assert(waiting_in(one.parents, one.order, start, y, i));
    assert(one.costs[x] <= one.costs[y]);
    assert(other.costs[y] <= other.costs[x]);
    assert(one.costs[x] == other.costs[x]);
    assert(one.costs[y] == other.costs[y]);
}

/// Of two sound runs that are alike up to an expansion that both have, a vertex that the
/// one has discovered after it, the other has too, with the same parent, state and cost.
proof fn lemma_known_carries<T, S: CostGuidedWaveTreeSearch<T>>(
    graph: Graph<T>,
    start: usize,
    stop: usize,
    one: Run<S>,
    other: Run<S>,
    i: int,
    v: usize,
)
    requires
        sound(graph, start, stop, one),
        sound(graph, start, stop, other),
        single_valued::<T, S>(),
        alike(one, other, start, i),
        i < one.order.len(),
        i < other.order.len(),
        one.order[i] == other.order[i],
        known(one, start, v, i + 1),
    ensures
        known(other, start, v, i + 1),
        one.parents[v] == other.parents[v],
        one.states[v] == other.states[v],
        one.costs[v] == other.costs[v],
{
    let x = one.order[i];
    if known(one, start, v, i) {
        assert(known(other, start, v, i));
        if v != start {
            let j = choose|j: int|
                0 <= j < i && j < other.order.len() && other.parents[v] == Some(
                    #[trigger] other.order[j],
                );
            assert(0 <= j < i + 1);
        }
    } else {
        let j = choose|j: int|
            0 <= j < i + 1 && j < one.order.len() && one.parents[v] == Some(
                #[trigger] one.order[j],
            );
        assert(j == i);
        assert(one.parents[v] == Some(x));
        assert(graph.adjacent(x, v));
        assert(graph.adjacent(other.order[i], v));
        assert(other.parents.contains_key(v));
        let m = choose|m: int| 0 <= m <= i && other.parents[v] == Some(#[trigger] other.order[m]);
        if m < i {
            assert(known(other, start, v, i));
            assert(known(one, start, v, i));
        }
        assert(other.parents[v] == Some(other.order[i]));
        assert(known(one, start, x, i)) by {
            assert(waiting_in(one.parents, one.order, start, x, i));
        }
        assert(one.states[x] == other.states[x]);
        let placed = graph.states();
        assert(call_ensures(
            S::as_adj,
            (&placed[x as int], &placed[v as int], &placed[stop as int], &one.states[x]),
            one.states[v],
        ));
        assert(call_ensures(
            S::as_adj,
            (&placed[x as int], &placed[v as int], &placed[stop as int], &other.states[x]),
            other.states[v],
        ));
        assert(one.states[v] == other.states[v]);
        assert(call_ensures(S::cost, (&one.states[v],), one.costs[v]));
        assert(call_ensures(S::cost, (&other.states[v],), other.costs[v]));
    }
}

/// Two sound runs on one graph, between the same two vertices and by a strategy with one
/// answer to each question, are alike as far as either goes.
proof fn lemma_alike_upto<T, S: CostGuidedWaveTreeSearch<T>>(
    graph: Graph<T>,
    start: usize,
    stop: usize,
    one: Run<S>,
    other: Run<S>,
    i: int,
)
    requires
        sound(graph, start, stop, one),
        sound(graph, start, stop, other),
        single_valued::<T, S>(),
        0 <= i <= one.order.len(),
    ensures
        alike(one, other, start, i),
    decreases i,
{
    if i == 0 {
        let placed = graph.states();
        assert(call_ensures(
            S::as_start,
            (&placed[start as int], &placed[stop as int]),
            one.states[start],
        ));
        assert(call_ensures(
            S::as_start,
            (&placed[start as int], &placed[stop as int]),
            other.states[start],
        ));
        assert(one.states[start] == other.states[start]);
        assert(call_ensures(S::cost, (&one.states[start],), one.costs[start]));
        assert(call_ensures(S::cost, (&other.states[start],), other.costs[start]));
        assert forall|v: usize| #[trigger] known(one, start, v, 0) implies v == start by {}
        assert forall|v: usize| #[trigger] known(other, start, v, 0) implies v == start by {}
    } else {
        lemma_alike_upto(graph, start, stop, one, other, i - 1);
        lemma_next_is_shared(graph, start, stop, one, other, i - 1);
        lemma_alike_swap(one, other, start, i - 1);
        assert forall|v: usize| #[trigger] known(one, start, v, i) implies known(
            other,
            start,
            v,
            i,
        ) && one.parents[v] == other.parents[v] && one.states[v] == other.states[v]
            && one.costs[v] == other.costs[v] by {
            lemma_known_carries(graph, start, stop, one, other, i - 1, v);
        }
        assert forall|v: usize| #[trigger] known(other, start, v, i) implies known(
            one,
            start,
            v,
            i,
        ) by {
            lemma_known_carries(graph, start, stop, other, one, i - 1, v);
        }
    }
}

/// Two lists that hold the same vertices, each in strictly ascending order of `key`, are
/// the same list.
proof fn lemma_same_order(one: Seq<usize>, other: Seq<usize>, key: Map<usize, i128>)
    requires
        forall|v: usize| one.contains(v) <==> other.contains(v),
        forall|i: int, j: int| 0 <= i < j < one.len() ==> key[one[i]] < key[one[j]],
        forall|i: int, j: int| 0 <= i < j < other.len() ==> key[other[i]] < key[other[j]],
    ensures
        one == other,
    decreases one.len(),
{
    if one.len() == 0 {
        if other.len() > 0 {
            assert(other.contains(other[0]));
            assert(one.contains(other[0]));
        }
        assert(one =~= other);
    } else {
        let a = one.last();
        assert(one.contains(a)) by {
            assert(one[one.len() - 1] == a);
        }
        assert(other.contains(a));
        let b = other.last();
        assert(other.contains(b)) by {
            assert(other[other.len() - 1] == b);
        }
        assert(one.contains(b));
        let k = choose|k: int| 0 <= k < one.len() && one[k] == b;
        let m = choose|m: int| 0 <= m < other.len() && other[m] == a;
        assert(a == b);
        let most = one.drop_last();
        let rest = other.drop_last();
        assert forall|v: usize| most.contains(v) <==> rest.contains(v) by {
            if most.contains(v) {
                let i = choose|i: int| 0 <= i < most.len() && most[i] == v;
                assert(one[i] == v);
                assert(one.contains(v));
                let j = choose|j: int| 0 <= j < other.len() && other[j] == v;
                assert(key[v] < key[a]);
                assert(j < other.len() - 1);
                assert(rest[j] == v);
            }
            if rest.contains(v) {
                let i = choose|i: int| 0 <= i < rest.len() && rest[i] == v;
                assert(other[i] == v);
                assert(other.contains(v));
                let j = choose|j: int| 0 <= j < one.len() && one[j] == v;
                assert(key[v] < key[b]);
                assert(j < one.len() - 1);
                assert(most[j] == v);
            }
        }
        assert forall|i: int, j: int| 0 <= i < j < most.len() implies key[most[i]]
            < key[most[j]] by {
            assert(most[i] == one[i] && most[j] == one[j]);
        }
        assert forall|i: int, j: int| 0 <= i < j < rest.len() implies key[rest[i]]
            < key[rest[j]] by {
            assert(rest[i] == other[i] && rest[j] == other[j]);
        }
        lemma_same_order(most, rest, key);
        assert(one =~= most.push(a));
        assert(other =~= rest.push(b));
    }
}

/// Two sound runs on one graph, between the same two vertices and by a strategy with one
/// answer to each question, expanded the same vertices in the same order and hold the same
/// parents and costs.
proof fn lemma_runs_coincide<T, S: CostGuidedWaveTreeSearch<T>>(
    graph: Graph<T>,
    start: usize,
    stop: usize,
    a: Run<S>,
    b: Run<S>,
)
    requires
        sound(graph, start, stop, a),
        sound(graph, start, stop, b),
        single_valued::<T, S>(),
    ensures
        a.order == b.order,
        a.parents == b.parents,
        forall|v: usize| #[trigger] a.parents.contains_key(v) ==> a.costs[v] == b.costs[v],
{
    lemma_alike_upto(graph, start, stop, a, b, a.order.len() as int);
    lemma_alike_upto(graph, start, stop, b, a, b.order.len() as int);
    let n = a.order.len() as int;
    assert(a.order =~= b.order);
    assert forall|v: usize| a.parents.contains_key(v) implies #[trigger] known(a, start, v, n) by {
        if v != start {
            let u = a.parents[v]->Some_0;
            assert(a.order.contains(u));
            let j = choose|j: int| 0 <= j < a.order.len() && a.order[j] == u;
            assert(a.parents[v] == Some(a.order[j]));
        }
    }
    assert forall|v: usize| b.parents.contains_key(v) implies #[trigger] known(b, start, v, n) by {
        if v != start {
            let u = b.parents[v]->Some_0;
            assert(b.order.contains(u));
            let j = choose|j: int| 0 <= j < b.order.len() && b.order[j] == u;
            assert(b.parents[v] == Some(b.order[j]));
        }
    }
    assert forall|v: usize| a.parents.contains_key(v) <==> b.parents.contains_key(v) by {
        if a.parents.contains_key(v) {
            assert(known(a, start, v, n));
            assert(known(b, start, v, n));
        }
        if b.parents.contains_key(v) {
            assert(known(b, start, v, n));
            assert(known(a, start, v, n));
        }
    }
    assert forall|v: usize| a.parents.contains_key(v) implies a.parents[v] == b.parents[v]
        && a.costs[v] == b.costs[v] by {
        assert(known(a, start, v, n));
    }
    assert(a.parents =~= b.parents);
}

/// The fringe of a result holds the discovered vertices that were not expanded, but for
/// the target, and where no costs tie their costs rise from each to the next.
proof fn lemma_fringe<T>(found: CostGuidedTreeSearchResult<'_, T>)
    requires
        found.wf(),
        untied(found),
    ensures
        forall|v: usize|
            found.frontier().contains(v) <==> found.discovered(v) && !found.expansion().contains(v)
                && v != found.stop(),
        forall|i: int, j: int|
            0 <= i < j < found.frontier().len() ==> found.discovered(found.frontier()[i])
                && found.discovered(found.frontier()[j]) && found.costs()[found.frontier()[i]]
                < found.costs()[found.frontier()[j]],
{
    let fringe = found.frontier();
    assert forall|v: usize|
        fringe.contains(v) <==> found.discovered(v) && !found.expansion().contains(v) && v
            != found.stop() by {
        assert(found.expanded(v) <==> found.expansion().contains(v));
        if fringe.contains(v) {
            let i = choose|i: int| 0 <= i < fringe.len() && fringe[i] == v;
            assert(found.discovered(fringe[i]));
        }
    }
    assert forall|i: int, j: int| 0 <= i < j < fringe.len() implies found.discovered(fringe[i])
        && found.discovered(fringe[j]) && found.costs()[fringe[i]] < found.costs()[fringe[j]] by {
        assert(found.discovered(fringe[i]) && found.discovered(fringe[j]));
        assert(fringe[i] != fringe[j]);
    }
}

/// A search is determined by its graph, its two ends and its strategy, wherever the
/// strategy has one answer to each question and no two discovered vertices cost the same.
///
/// Two results of such searches, as `try_on` and `try_on_with_alloc` give them whatever
/// room is set aside, have expanded the same vertices in the same order, hold the same
/// parent map and the same fringe, agree on success, and queued every vertex with the same
/// cost.
pub proof fn lemma_search_is_determined<T, S: CostGuidedWaveTreeSearch<T>>(
    one: CostGuidedTreeSearchResult<'_, T>,
    other: CostGuidedTreeSearchResult<'_, T>,
)
    requires
        one.wf(),
        other.wf(),
        one.searched() == other.searched(),
        one.start() == other.start(),
        one.stop() == other.stop(),
        searched_by::<T, S>(one),
        searched_by::<T, S>(other),
        single_valued::<T, S>(),
        untied(one),
        untied(other),
    ensures
        one.expansion() == other.expansion(),
        one.parents() == other.parents(),
        one.frontier() == other.frontier(),
        one.succeeded() == other.succeeded(),
        forall|v: usize| #[trigger] one.discovered(v) ==> one.costs()[v] == other.costs()[v],
{
    let states_of_one = choose|states: Map<usize, S>|
        {
            &&& #[trigger] states.dom() == one.parents().dom()
            &&& derived_by(one, states)
        };
    let states_of_other = choose|states: Map<usize, S>|
        {
            &&& #[trigger] states.dom() == other.parents().dom()
            &&& derived_by(other, states)
        };
    let a = run_of(one, states_of_one);
    let b = run_of(other, states_of_other);
    lemma_run_is_sound(one, states_of_one);
    lemma_run_is_sound(other, states_of_other);
    lemma_runs_coincide(one.searched(), one.start(), one.stop(), a, b);
    crate::search::lemma_strategies_agree(one, other);
    lemma_fringe(one);
    lemma_fringe(other);
    lemma_fringes_coincide(
        one.frontier(),
        other.frontier(),
        one.parents(),
        one.expansion(),
        one.stop(),
        one.costs(),
        other.costs(),
    );
}

/// Two fringes of the same vertices, each in strictly rising order of its own costs, are
/// the same list where the costs agree on those vertices.
proof fn lemma_fringes_coincide(
    one: Seq<usize>,
    other: Seq<usize>,
    parents: Map<usize, Option<usize>>,
    order: Seq<usize>,
    stop: usize,
    costs_of_one: Map<usize, i128>,
    costs_of_other: Map<usize, i128>,
)
    requires
        forall|v: usize|
            one.contains(v) <==> parents.contains_key(v) && !order.contains(v) && v != stop,
        forall|v: usize|
            other.contains(v) <==> parents.contains_key(v) && !order.contains(v) && v != stop,
        forall|i: int, j: int|
            0 <= i < j < one.len() ==> costs_of_one[one[i]] < costs_of_one[one[j]],
        forall|i: int, j: int|
            0 <= i < j < other.len() ==> costs_of_other[other[i]] < costs_of_other[other[j]],
        forall|v: usize| #[trigger]
            parents.contains_key(v) ==> costs_of_one[v] == costs_of_other[v],
    ensures
        one == other,
{
    assert forall|i: int, j: int| 0 <= i < j < other.len() implies costs_of_one[other[i]]
        < costs_of_one[other[j]] by {
        assert(other.contains(other[i]) && other.contains(other[j]));
    }
    lemma_same_order(one, other, costs_of_one);
}

} // verus!
