use nalgebra::{Point3, Vector3};
use ordered_float::OrderedFloat;
use pl::graph::Graph;
use pl::path::Path;
use pl::prm::PRM;
use pl::search::{key_of_bits, CostGuidedTreeSearchResult, CostGuidedWaveTreeSearch, BFS, DFS};
use rand::rngs::StdRng;
use rand::{Rng, SeedableRng};
use std::cell::RefCell;
use std::collections::VecDeque;

/// The cost of a vertex as an integer that is ordered as the float is.
fn key(cost: OrderedFloat<f32>) -> i128 {
    let value = cost.into_inner();
    if value.is_nan() {
        return i128::MAX;
    }
    key_of_bits((value + 0.0).to_bits())
}

#[derive(Debug)]
struct WeightableAStar<const NUM: usize, const DEN: usize> {
    dist_from_start: f32,
    total_cost: f32,
}

impl<const NUM: usize, const DEN: usize> CostGuidedWaveTreeSearch<Point3<f32>>
    for WeightableAStar<NUM, DEN>
{
    fn as_start(my_vertex_state: &Point3<f32>, stop_vertex_state: &Point3<f32>) -> Self {
        Self {
            dist_from_start: 0.0,
            total_cost: 0.0
                + (my_vertex_state - stop_vertex_state).norm() * (NUM as f32 / DEN as f32),
        }
    }

    fn as_adj(
        prev_vertex_state: &Point3<f32>,
        my_vertex_state: &Point3<f32>,
        stop_vertex_state: &Point3<f32>,
        parent: &Self,
    ) -> Self {
        let dist_from_start = parent.dist_from_start + (prev_vertex_state - my_vertex_state).norm();
        Self {
            dist_from_start,
            total_cost: dist_from_start
                + (my_vertex_state - stop_vertex_state).norm() * (NUM as f32 / DEN as f32),
        }
    }

    fn cost(&self) -> i128 {
        key(OrderedFloat(self.total_cost))
    }
}

type UCS = WeightableAStar<0, 1>;
type AStar = WeightableAStar<1, 1>;
type AStarWeighted2 = WeightableAStar<2, 1>;

fn within(radius: f32) -> impl Fn(&Point3<f32>, &Point3<f32>) -> bool {
    move |a, b| (a - b).norm() <= radius
}

fn sampler_in(size: Vector3<f32>, seed: u64) -> impl Fn() -> Point3<f32> {
    let rng = RefCell::new(StdRng::seed_from_u64(seed));
    move || {
        let (x, y, z): (f32, f32, f32) = rng.borrow_mut().gen();
        Point3::new(x * size.x, y * size.y, z * size.z)
    }
}

/// A graph of `n` vertices whose states are their own indices, with the edges given.
fn graph_of(n: usize, edges: &[(usize, usize)]) -> Graph<usize> {
    let joined = |a: &usize, b: &usize| edges.contains(&(*a, *b)) || edges.contains(&(*b, *a));
    PRM::from_states((0..n).collect(), joined).graph
}

/// A graph with the states given, in which the edges given join them.
fn placed(states: &[Point3<f32>], edges: &[(usize, usize)]) -> Graph<Point3<f32>> {
    let at = |p: &Point3<f32>| states.iter().position(|s| s == p).unwrap();
    let joined = |a: &Point3<f32>, b: &Point3<f32>| {
        edges.contains(&(at(a), at(b))) || edges.contains(&(at(b), at(a)))
    };
    PRM::from_states(states.to_vec(), joined).graph
}

fn hops_from<T>(graph: &Graph<T>, start: usize) -> Vec<Option<usize>> {
    let mut hops = vec![None; graph.len()];
    hops[start] = Some(0);
    let mut queue = VecDeque::new();
    queue.push_back(start);
    while let Some(v) = queue.pop_front() {
        let mut neighbours: Vec<usize> = graph.neighbors(v).iter().copied().collect();
        neighbours.sort();
        for w in neighbours {
            if hops[w].is_none() {
                hops[w] = Some(hops[v].unwrap() + 1);
                queue.push_back(w);
            }
        }
    }
    hops
}

/// What holds of every search result, whatever the strategy.
fn check_result<T>(found: &CostGuidedTreeSearchResult<T>, start: usize, stop: usize) {
    let graph = found.graph();
    let parents = found.parent_map();
    assert_eq!(found.start_idx(), start);
    assert_eq!(found.stop_idx(), stop);
    assert_eq!(found.sucess(), parents.contains_key(&stop));
    assert_eq!(found.sucess(), hops_from(graph, start)[stop].is_some());
    assert_eq!(parents.get(&start), Some(&None));
    for (&child, &parent) in parents.iter() {
        assert!(child < graph.len());
        match parent {
            None => assert_eq!(child, start),
            Some(parent) => {
                assert!(child != start);
                assert!(parents.contains_key(&parent));
                assert!(graph.has_edge(parent, child));
            }
        }
    }
    let fringe = found.fringe();
    for (k, v) in fringe.iter().enumerate() {
        assert!(parents.contains_key(v));
        assert!(*v != stop);
        assert!(!fringe[..k].contains(v));
    }
    if !found.sucess() {
        assert!(fringe.is_empty());
    }
    for &v in parents.keys() {
        let expanded = !fringe.contains(&v) && !(found.sucess() && v == stop);
        if expanded {
            for w in graph.neighbors(v).iter() {
                assert!(parents.contains_key(w));
            }
        }
    }
    for v in 0..graph.len() {
        let path = found.path_to(v);
        assert_eq!(path, found.path_to(v));
        assert_eq!(path.is_some(), parents.contains_key(&v));
        if let Some(path) = path {
            assert_eq!(path[0], start);
            assert_eq!(*path.last().unwrap(), v);
            for pair in path.windows(2) {
                assert_eq!(parents[&pair[1]], Some(pair[0]));
                assert!(graph.has_edge(pair[0], pair[1]));
            }
        }
    }
    assert_eq!(found.path_to(start), Some(vec![start]));
    assert_eq!(found.path_to_stop(), found.path_to(stop));
    assert_eq!(found.path_to_stop().is_some(), found.sucess());
}

fn ladder() -> Graph<usize> {
    graph_of(
        9,
        &[(0, 1), (1, 2), (2, 3), (0, 4), (4, 5), (5, 3), (3, 6), (1, 5), (7, 8)],
    )
}

#[test]
fn path_to_the_start_is_the_start_alone() {
    let graph = ladder();
    for start in 0..graph.len() {
        let stop = (start + 3) % graph.len();
        assert_eq!(BFS::try_on(&graph, start, stop).path_to(start), Some(vec![start]));
        assert_eq!(DFS::try_on(&graph, start, stop).path_to(start), Some(vec![start]));
        assert_eq!(BFS::try_on(&graph, start, start).path_to_stop(), Some(vec![start]));
    }
}

#[test]
fn a_search_for_the_start_itself_succeeds_at_once() {
    let graph = ladder();
    let found = DFS::try_on(&graph, 2, 2);
    assert!(found.sucess());
    assert_eq!(found.path_to_stop(), Some(vec![2]));
    assert_eq!(found.parent_map().len(), 1);
    assert!(found.fringe().is_empty());
    check_result(&found, 2, 2);
}

#[test]
fn bfs_hops_are_one_less_than_the_path_length() {
    let graph = ladder();
    for start in 0..graph.len() {
        let hops = hops_from(&graph, start);
        for stop in 0..graph.len() {
            let found = BFS::try_on(&graph, start, stop);
            check_result(&found, start, stop);
            for v in 0..graph.len() {
                if let Some(path) = found.path_to(v) {
                    assert_eq!(Some(path.len() - 1), hops[v]);
                    for k in 0..path.len() {
                        assert_eq!(found.path_to(path[k]), Some(path[..=k].to_vec()));
                        assert_eq!(hops[path[k]], Some(k));
                    }
                }
            }
        }
    }
}

#[test]
fn bfs_finds_a_path_of_fewest_hops() {
    let graph = ladder();
    let found = BFS::try_on(&graph, 0, 6);
    assert!(found.sucess());
    let path = found.path_to_stop().unwrap();
    assert_eq!(path.len(), 5);
    assert!(path == vec![0, 1, 2, 3, 6] || path == vec![0, 4, 5, 3, 6] || path == vec![0, 1, 5, 3, 6]);
    let near = BFS::try_on(&graph, 0, 5);
    let path = near.path_to_stop().unwrap();
    assert!(path == vec![0, 1, 5] || path == vec![0, 4, 5]);
}

#[test]
fn the_bfs_fringe_is_in_order_of_hops() {
    let graph = graph_of(
        8,
        &[(0, 1), (0, 2), (0, 3), (1, 4), (2, 5), (3, 6), (4, 7)],
    );
    let found = BFS::try_on(&graph, 0, 5);
    assert!(found.sucess());
    check_result(&found, 0, 5);
    let lengths: Vec<usize> =
        found.fringe().iter().map(|v| found.path_to(*v).unwrap().len()).collect();
    for pair in lengths.windows(2) {
        assert!(pair[0] <= pair[1]);
    }
    for length in lengths {
        assert!(length >= 3);
    }
}

#[test]
fn success_is_having_the_target_in_the_parent_map() {
    let graph = ladder();
    let reached = BFS::try_on(&graph, 0, 6);
    assert!(reached.sucess());
    assert!(reached.parent_map().contains_key(&6));
    let missed = BFS::try_on(&graph, 0, 8);
    assert!(!missed.sucess());
    assert!(!missed.parent_map().contains_key(&8));
    let other = DFS::try_on(&graph, 7, 8);
    assert!(other.sucess());
    assert_eq!(other.parent_map().get(&8), Some(&Some(7)));
    assert_eq!(other.path_to_stop(), Some(vec![7, 8]));
}

#[test]
fn an_unreachable_target_is_no_error() {
    let graph = ladder();
    for found in [BFS::try_on(&graph, 0, 7), DFS::try_on(&graph, 0, 7)] {
        assert!(!found.sucess());
        assert_eq!(found.path_to_stop(), None);
        assert_eq!(found.path_to(7), None);
        assert_eq!(found.path_to(8), None);
        assert!(found.fringe().is_empty());
        let mut discovered: Vec<usize> = found.parent_map().keys().copied().collect();
        discovered.sort();
        assert_eq!(discovered, vec![0, 1, 2, 3, 4, 5, 6]);
        check_result(&found, 0, 7);
        let path = Path::from(&found);
        assert_eq!(path.len(), 0);
    }
}

#[test]
fn path_to_gives_the_same_answer_twice() {
    let graph = ladder();
    let found = DFS::try_on(&graph, 0, 6);
    for v in 0..graph.len() {
        let first = found.path_to(v);
        let second = found.path_to(v);
        assert_eq!(first, second);
    }
    assert_eq!(found.path_to_stop(), found.path_to_stop());
}

#[test]
fn dfs_follows_a_chain_to_its_end() {
    let graph = graph_of(5, &[(0, 1), (1, 2), (2, 3), (3, 4)]);
    let found = DFS::try_on(&graph, 0, 4);
    assert!(found.sucess());
    assert_eq!(found.path_to_stop(), Some(vec![0, 1, 2, 3, 4]));
    assert!(found.fringe().is_empty());
    check_result(&found, 0, 4);
    let back = DFS::try_on(&graph, 4, 1);
    assert_eq!(back.path_to_stop(), Some(vec![4, 3, 2, 1]));
}

#[test]
fn dfs_expands_the_deepest_vertex_first() {
    let graph = graph_of(
        7,
        &[(0, 1), (1, 2), (2, 3), (3, 4), (0, 5), (5, 6)],
    );
    let found = DFS::try_on(&graph, 0, 4);
    assert!(found.sucess());
    assert_eq!(found.path_to_stop(), Some(vec![0, 1, 2, 3, 4]));
    let fringe = found.fringe();
    assert!(fringe.is_empty() || fringe == &vec![5] || fringe == &vec![6]);
    if fringe == &vec![5] {
        assert!(!found.parent_map().contains_key(&6));
    }
    check_result(&found, 0, 4);
}

#[test]
fn every_strategy_holds_the_invariants_of_a_result() {
    let size = Vector3::new(5.0f32, 4.0, 3.0);
    let mut prm = PRM::with_num_samples(sampler_in(size, 11), 150, within(0.9));
    let [a, b] = prm.add([Point3::new(0.3, 0.7, 0.5), Point3::new(4.5, 3.3, 2.0)], within(0.9));
    check_result(&DFS::try_on(&prm.graph, a, b), a, b);
    check_result(&BFS::try_on(&prm.graph, a, b), a, b);
    check_result(&UCS::try_on(&prm.graph, a, b), a, b);
    check_result(&AStar::try_on(&prm.graph, a, b), a, b);
    check_result(&WeightableAStar::<11, 10>::try_on(&prm.graph, a, b), a, b);
    check_result(&AStarWeighted2::try_on(&prm.graph, a, b), a, b);
}

#[test]
fn all_strategies_agree_on_success() {
    for seed in 0..12u64 {
        let size = Vector3::new(6.0f32, 5.0, 4.0);
        let radius = 0.6 + 0.05 * seed as f32;
        let mut prm = PRM::with_num_samples(sampler_in(size, seed), 120, within(radius));
        let [a, b] =
            prm.add([Point3::new(0.3, 0.7, 0.5), Point3::new(5.5, 4.3, 3.0)], within(radius));
        let reachable = hops_from(&prm.graph, a)[b].is_some();
        assert_eq!(DFS::try_on(&prm.graph, a, b).sucess(), reachable);
        assert_eq!(BFS::try_on(&prm.graph, a, b).sucess(), reachable);
        assert_eq!(UCS::try_on(&prm.graph, a, b).sucess(), reachable);
        assert_eq!(AStar::try_on(&prm.graph, a, b).sucess(), reachable);
        assert_eq!(WeightableAStar::<11, 10>::try_on(&prm.graph, a, b).sucess(), reachable);
        assert_eq!(AStarWeighted2::try_on(&prm.graph, a, b).sucess(), reachable);
    }
}

#[test]
fn bfs_between_two_appended_states_of_a_large_roadmap() {
    let size = Vector3::new(12.0f32, 10.0, 5.0);
    let rng = RefCell::new(rand::thread_rng());
    let sample = || {
        let (x, y, z): (f32, f32, f32) = rng.borrow_mut().gen();
        Point3::new(x * size.x, y * size.y, z * size.z)
    };
    let mut prm = PRM::with_num_samples(sample, 2000, within(1.0));
    let [a, b] = prm.add([Point3::new(0.3, 0.7, 0.5), Point3::new(9.5, 7.3, 4.0)], within(1.0));
    assert_eq!((a, b), (2000, 2001));
    let found = BFS::try_on(&prm.graph, a, b);
    match found.path_to_stop() {
        None => assert!(!found.sucess()),
        Some(path) => {
            assert!(found.sucess());
            assert_eq!(path[0], a);
            assert_eq!(*path.last().unwrap(), b);
        }
    }
    let path = Path::from(&found);
    if found.sucess() {
        assert_eq!(path.vertices()[0], Point3::new(0.3, 0.7, 0.5));
        assert_eq!(*path.vertices().last().unwrap(), Point3::new(9.5, 7.3, 4.0));
    } else {
        assert_eq!(path.len(), 0);
    }
}

#[test]
fn any_search_between_two_joined_states_returns_both() {
    let mut prm = PRM::with_num_samples(|| Point3::new(0.0f32, 0.0, 0.0), 0, within(1.0));
    let [a, b] = prm.add([Point3::new(2.0f32, 2.0, 2.0), Point3::new(2.0, 2.5, 2.0)], within(1.0));
    assert!(prm.graph.has_edge(a, b));
    let graph = &prm.graph;
    let paths = [
        DFS::try_on(graph, a, b).path_to_stop(),
        BFS::try_on(graph, a, b).path_to_stop(),
        UCS::try_on(graph, a, b).path_to_stop(),
        AStar::try_on(graph, a, b).path_to_stop(),
        WeightableAStar::<11, 10>::try_on(graph, a, b).path_to_stop(),
        AStarWeighted2::try_on(graph, a, b).path_to_stop(),
        BFS::try_on(graph, b, a).path_to_stop().map(|p| p.into_iter().rev().collect()),
    ];
    for path in paths {
        assert_eq!(path, Some(vec![a, b]));
    }
}

#[test]
fn the_state_of_a_vertex_is_not_revised() {
    let states = [
        Point3::new(0.0f32, 0.0, 0.0),
        Point3::new(0.0, 1.0, 0.0),
        Point3::new(2.0, 0.0, 0.0),
        Point3::new(3.0, 0.0, 0.0),
    ];
    let graph = placed(&states, &[(0, 1), (0, 2), (1, 3), (2, 3)]);
    let found = UCS::try_on(&graph, 0, 3);
    assert!(found.sucess());
    assert_eq!(found.path_to_stop(), Some(vec![0, 1, 3]));
    assert_eq!(found.parent_map()[&3], Some(1));
    check_result(&found, 0, 3);
}

#[test]
fn ucs_expands_the_nearer_vertex_first() {
    let states = [
        Point3::new(0.0f32, 0.0, 0.0),
        Point3::new(1.0, 0.0, 0.0),
        Point3::new(0.0, 5.0, 0.0),
        Point3::new(2.0, 0.0, 0.0),
        Point3::new(0.0, 6.0, 0.0),
    ];
    let graph = placed(&states, &[(0, 1), (0, 2), (1, 3), (2, 4)]);
    let found = UCS::try_on(&graph, 0, 3);
    assert_eq!(found.path_to_stop(), Some(vec![0, 1, 3]));
    assert_eq!(found.fringe(), &vec![2]);
    assert!(!found.parent_map().contains_key(&4));
}

#[test]
fn a_star_is_drawn_towards_the_target() {
    let states = [
        Point3::new(0.0f32, 0.0, 0.0),
        Point3::new(-1.0, 0.0, 0.0),
        Point3::new(1.5, 0.0, 0.0),
        Point3::new(-2.0, 0.0, 0.0),
        Point3::new(3.0, 0.0, 0.0),
    ];
    let graph = placed(&states, &[(0, 1), (0, 2), (1, 3), (2, 4)]);
    let guided = AStar::try_on(&graph, 0, 4);
    assert_eq!(guided.path_to_stop(), Some(vec![0, 2, 4]));
    assert_eq!(guided.fringe(), &vec![1]);
    assert!(!guided.parent_map().contains_key(&3));
    let blind = UCS::try_on(&graph, 0, 4);
    assert_eq!(blind.path_to_stop(), Some(vec![0, 2, 4]));
    assert!(blind.parent_map().contains_key(&3));
    assert!(blind.fringe().is_empty());
}

#[test]
fn the_costs_of_the_weighted_strategies() {
    let start = Point3::new(0.0f32, 0.0, 0.0);
    let mid = Point3::new(3.0f32, 4.0, 0.0);
    let stop = Point3::new(3.0f32, 4.0, 12.0);
    let at_start = AStar::as_start(&start, &stop);
    assert_eq!(at_start.dist_from_start, 0.0);
    assert_eq!(at_start.total_cost, 13.0);
    let at_mid = AStar::as_adj(&start, &mid, &stop, &at_start);
    assert_eq!(at_mid.dist_from_start, 5.0);
    assert_eq!(at_mid.total_cost, 17.0);
    assert_eq!(UCS::as_start(&start, &stop).total_cost, 0.0);
    assert_eq!(AStarWeighted2::as_start(&start, &stop).total_cost, 26.0);
    assert_eq!(WeightableAStar::<1, 2>::as_start(&start, &stop).total_cost, 6.5);
    let blind = UCS::as_adj(&start, &mid, &stop, &UCS::as_start(&start, &stop));
    assert_eq!(blind.total_cost, 5.0);
    let greedy = AStarWeighted2::as_adj(&start, &mid, &stop, &AStarWeighted2::as_start(&start, &stop));
    assert_eq!(greedy.total_cost, 29.0);
    let half = WeightableAStar::<1, 2>::as_adj(
        &start,
        &mid,
        &stop,
        &WeightableAStar::<1, 2>::as_start(&start, &stop),
    );
    assert_eq!(half.total_cost, 11.0);
    assert!(blind.cost() < half.cost());
    assert!(half.cost() < at_mid.cost());
    assert!(at_mid.cost() < greedy.cost());
}

#[test]
fn the_integer_cost_is_ordered_as_the_float() {
    let values = [
        f32::NEG_INFINITY,
        -1.0e30,
        -2.5,
        -1.0e-30,
        -0.0,
        1.0e-30,
        0.75,
        1.0,
        3.5e20,
        f32::INFINITY,
        f32::NAN,
    ];
    for a in values {
        for b in values {
            assert_eq!(
                OrderedFloat(a).cmp(&OrderedFloat(b)),
                key(OrderedFloat(a)).cmp(&key(OrderedFloat(b)))
            );
        }
    }
    assert_eq!(key(OrderedFloat(0.0)), key(OrderedFloat(-0.0)));
}

#[test]
fn the_key_of_a_bit_pattern() {
    assert_eq!(key_of_bits(0), 0);
    assert_eq!(key_of_bits(0x8000_0000), 0);
    assert_eq!(key_of_bits(1), 1);
    assert_eq!(key_of_bits(0x8000_0001), -1);
    assert_eq!(key_of_bits(0x7fff_ffff), 0x7fff_ffff);
    assert_eq!(key_of_bits(0xffff_ffff), -0x7fff_ffff);
    assert_eq!(key_of_bits(1.0f32.to_bits()), 0x3f80_0000);
    assert_eq!(key_of_bits((-1.0f32).to_bits()), -0x3f80_0000);
    assert!(key_of_bits(2.5f32.to_bits()) > key_of_bits(2.25f32.to_bits()));
    assert!(key_of_bits((-2.5f32).to_bits()) < key_of_bits((-2.25f32).to_bits()));
    assert!(key_of_bits((-0.001f32).to_bits()) < key_of_bits(0.001f32.to_bits()));
}

#[test]
fn bfs_and_dfs_start_at_cost_nought() {
    let here = Point3::new(1.0f32, 2.0, 3.0);
    let bfs: BFS = BFS::as_start(&here, &here);
    assert_eq!(CostGuidedWaveTreeSearch::<Point3<f32>>::cost(&bfs), 0);
    let next: BFS = BFS::as_adj(&here, &here, &here, &bfs);
    assert_eq!(CostGuidedWaveTreeSearch::<Point3<f32>>::cost(&next), 1);
    let third: BFS = BFS::as_adj(&here, &here, &here, &next);
    assert_eq!(CostGuidedWaveTreeSearch::<Point3<f32>>::cost(&third), 2);
    let dfs: DFS = DFS::as_start(&here, &here);
    assert_eq!(CostGuidedWaveTreeSearch::<Point3<f32>>::cost(&dfs), 0);
    let deeper: DFS = DFS::as_adj(&here, &here, &here, &dfs);
    assert_eq!(CostGuidedWaveTreeSearch::<Point3<f32>>::cost(&deeper), -1);
    let deepest: DFS = DFS::as_adj(&here, &here, &here, &deeper);
    assert_eq!(CostGuidedWaveTreeSearch::<Point3<f32>>::cost(&deepest), -2);
}

#[test]
fn a_search_without_ties_has_one_result() {
    for seed in 20..26u64 {
        let size = Vector3::new(5.0f32, 4.0, 3.0);
        let mut prm = PRM::with_num_samples(sampler_in(size, seed), 140, within(1.0));
        let [a, b] = prm.add([Point3::new(0.3, 0.7, 0.5), Point3::new(4.5, 3.3, 2.0)], within(1.0));
        let one = UCS::try_on(&prm.graph, a, b);
        let other = UCS::try_on_with_alloc(&prm.graph, a, b, 0);
        assert_eq!(one.sucess(), other.sucess());
        assert_eq!(one.parent_map(), other.parent_map());
        assert_eq!(one.fringe(), other.fringe());
        assert_eq!(one.path_to_stop(), other.path_to_stop());
        let guided = AStar::try_on(&prm.graph, a, b);
        let again = AStar::try_on_with_alloc(&prm.graph, a, b, 7);
        assert_eq!(guided.parent_map(), again.parent_map());
        assert_eq!(guided.fringe(), again.fringe());
    }
}

#[test]
fn the_room_set_aside_does_not_change_the_result() {
    let graph = ladder();
    for alloc in [0usize, 1, 9, 1000] {
        let found = BFS::try_on_with_alloc(&graph, 0, 6, alloc);
        assert!(found.sucess());
        assert_eq!(found.path_to_stop().unwrap().len(), 5);
        check_result(&found, 0, 6);
        let missed = DFS::try_on_with_alloc(&graph, 0, 8, alloc);
        assert!(!missed.sucess());
        check_result(&missed, 0, 8);
    }
}

#[test]
fn a_path_holds_the_states_from_start_to_target() {
    let states = [
        Point3::new(0.0f32, 0.0, 0.0),
        Point3::new(1.0, 0.0, 0.0),
        Point3::new(2.0, 0.0, 0.0),
        Point3::new(7.0, 7.0, 7.0),
    ];
    let graph = placed(&states, &[(0, 1), (1, 2)]);
    let found = BFS::try_on(&graph, 0, 2);
    let path = Path::from(&found);
    assert_eq!(path.len(), 3);
    assert_eq!(path.vertices(), &vec![states[0], states[1], states[2]]);
    let alone = Path::from(&BFS::try_on(&graph, 3, 3));
    assert_eq!(alone.len(), 1);
    assert_eq!(alone.vertices(), &vec![states[3]]);
    let none = Path::from(&AStar::try_on(&graph, 0, 3));
    assert_eq!(none.len(), 0);
    assert!(none.vertices().is_empty());
}
