use state_search::Problem;
use state_search::State;
use std::cell::RefCell;
use std::hash::Hash;
use std::hash::Hasher;
use std::rc::Rc;

/// A small explicit graph; states are node numbers.
struct Graph {
    /// For each node its outgoing edges, as (target, cost).
    edges: Vec<Vec<Edge>>,
    /// Nodes that fail their validity check.
    invalid: Vec<usize>,
    /// The nodes whose actions were enumerated, in order.
    expanded: RefCell<Vec<usize>>,
}

struct Edge {
    to: usize,
    cost: u32,
}

struct Place {
    id: usize,
    graph: Rc<Graph>,
}

impl PartialEq for Place {
    fn eq(&self, other: &Self) -> bool {
        self.id == other.id
    }
}

impl Eq for Place {}

impl Hash for Place {
    fn hash<H: Hasher>(&self, state: &mut H) {
        self.id.hash(state);
    }
}

impl State for Place {
    type Action = Edge;

    fn get_actions(&self) -> Vec<&Edge> {
        self.graph.expanded.borrow_mut().push(self.id);
        self.graph.edges[self.id].iter().collect()
    }

    fn transfer(&self, action: &Edge) -> Rc<Place> {
        Rc::new(Place { id: action.to, graph: self.graph.clone() })
    }

    fn is_valid(&self) -> bool {
        !self.graph.invalid.contains(&self.id)
    }
}

fn graph(nodes: usize, edges: &[(usize, usize, u32)], invalid: &[usize]) -> Rc<Graph> {
    let mut lists: Vec<Vec<Edge>> = Vec::new();
    for _ in 0..nodes {
        lists.push(Vec::new());
    }
    for (from, to, cost) in edges {
        lists[*from].push(Edge { to: *to, cost: *cost });
    }
    Rc::new(Graph { edges: lists, invalid: invalid.to_vec(), expanded: RefCell::new(Vec::new()) })
}

fn start(g: &Rc<Graph>) -> Rc<Place> {
    Rc::new(Place { id: 0, graph: g.clone() })
}

fn id(found: Option<Rc<Place>>) -> Option<usize> {
    found.map(|p| p.id)
}

fn step_cost(_s: &Place, e: &Edge) -> u32 {
    e.cost
}

fn no_estimate(_s: &Place) -> u32 {
    0
}

#[test]
fn breadth_first_returns_goal_after_expanding_level_by_level() {
    let g = graph(4, &[(0, 1, 1), (0, 2, 1), (1, 3, 1)], &[]);
    let p = Problem::new(start(&g), |s: &Place| s.id == 3);
    assert_eq!(id(p.breadth_first_search()), Some(3));
    assert_eq!(*g.expanded.borrow(), vec![0, 1, 2]);
}

#[test]
fn cycle_back_to_start_ends_without_a_goal() {
    let edges = [(0, 1, 1), (1, 0, 1)];
    let g = graph(2, &edges, &[]);
    let p = Problem::new(start(&g), |_s: &Place| false);
    assert_eq!(id(p.breadth_first_search()), None);
    assert_eq!(id(p.depth_first_search()), None);
    assert_eq!(id(p.uniform_cost_search(step_cost)), None);
    assert_eq!(id(p.greedy_search(no_estimate)), None);
    assert_eq!(id(p.a_star_search(step_cost, no_estimate)), None);
}

#[test]
fn self_loop_on_start_ends_without_a_goal() {
    let g = graph(1, &[(0, 0, 1)], &[]);
    let p = Problem::new(start(&g), |_s: &Place| false);
    assert_eq!(id(p.breadth_first_search()), None);
    assert_eq!(id(p.depth_first_search()), None);
    assert_eq!(id(p.uniform_cost_search(step_cost)), None);
    assert_eq!(id(p.greedy_search(no_estimate)), None);
    assert_eq!(id(p.a_star_search(step_cost, no_estimate)), None);
    assert_eq!(*g.expanded.borrow(), vec![0, 0, 0, 0, 0]);
}

#[test]
fn start_that_is_a_goal_is_returned_without_expansion() {
    let g = graph(2, &[(0, 1, 1)], &[]);
    let first = start(&g);
    let p = Problem::new(first.clone(), |s: &Place| s.id == 0);
    let found = p.breadth_first_search().unwrap();
    assert!(Rc::ptr_eq(&found, &first));
    assert!(g.expanded.borrow().is_empty());
}

#[test]
fn returned_handle_shares_the_start_state_in_every_strategy() {
    let g = graph(1, &[], &[]);
    let first = start(&g);
    let p = Problem::new(first.clone(), |_s: &Place| true);
    assert!(Rc::ptr_eq(&p.depth_first_search().unwrap(), &first));
    assert!(Rc::ptr_eq(&p.uniform_cost_search(step_cost).unwrap(), &first));
    assert!(Rc::ptr_eq(&p.greedy_search(no_estimate).unwrap(), &first));
    assert!(Rc::ptr_eq(&p.a_star_search(step_cost, no_estimate).unwrap(), &first));
}

#[test]
fn breadth_first_prefers_the_shallower_goal() {
    // 0 -> 1 -> 3 -> 5(goal), 0 -> 2 -> 4(goal)
    let g = graph(6, &[(0, 1, 1), (0, 2, 1), (1, 3, 1), (3, 5, 1), (2, 4, 1)], &[]);
    let p = Problem::new(start(&g), |s: &Place| s.id == 5 || s.id == 4);
    assert_eq!(id(p.breadth_first_search()), Some(4));
    assert_eq!(*g.expanded.borrow(), vec![0, 1, 2, 3]);
}

#[test]
fn depth_first_follows_the_newest_discovery() {
    // 0 -> 1 -> 3 -> 5(goal), 0 -> 2 -> 4(goal): the stack takes 2 before 1.
    let g = graph(6, &[(0, 1, 1), (0, 2, 1), (1, 3, 1), (3, 5, 1), (2, 4, 1)], &[]);
    let p = Problem::new(start(&g), |s: &Place| s.id == 5 || s.id == 4);
    assert_eq!(id(p.depth_first_search()), Some(4));
    assert_eq!(*g.expanded.borrow(), vec![0, 2]);
}

#[test]
fn depth_first_may_return_a_deep_goal_before_a_shallow_one() {
    // 0 -> 1(goal), 0 -> 2 -> 3(goal): 2 is taken before 1, then 3 before 1.
    let g = graph(4, &[(0, 1, 1), (0, 2, 1), (2, 3, 1)], &[]);
    let p = Problem::new(start(&g), |s: &Place| s.id == 1 || s.id == 3);
    assert_eq!(id(p.depth_first_search()), Some(3));
    assert_eq!(id(p.breadth_first_search()), Some(1));
}

#[test]
fn a_state_is_expanded_once_however_often_it_is_rediscovered() {
    // A diamond with a back edge: 0 -> 1, 0 -> 2, 1 -> 3, 2 -> 3, 3 -> 0.
    let g = graph(4, &[(0, 1, 1), (0, 2, 1), (1, 3, 1), (2, 3, 1), (3, 0, 1)], &[]);
    let p = Problem::new(start(&g), |_s: &Place| false);
    assert_eq!(id(p.breadth_first_search()), None);
    assert_eq!(*g.expanded.borrow(), vec![0, 1, 2, 3]);
}

#[test]
fn invalid_state_is_neither_expanded_nor_accepted() {
    // 1 is invalid though the predicate accepts it; its successor 4 is only reachable through it.
    let g = graph(5, &[(0, 1, 1), (0, 2, 1), (1, 4, 1), (2, 3, 1)], &[1]);
    let p = Problem::new(start(&g), |s: &Place| s.id == 1 || s.id == 4);
    assert_eq!(id(p.breadth_first_search()), None);
    assert_eq!(*g.expanded.borrow(), vec![0, 2, 3]);
}

#[test]
fn invalid_start_finds_nothing() {
    let g = graph(2, &[(0, 1, 1)], &[0]);
    let p = Problem::new(start(&g), |_s: &Place| true);
    assert_eq!(id(p.breadth_first_search()), None);
    assert_eq!(id(p.depth_first_search()), None);
    assert_eq!(id(p.uniform_cost_search(step_cost)), None);
    assert_eq!(id(p.greedy_search(no_estimate)), None);
    assert_eq!(id(p.a_star_search(step_cost, no_estimate)), None);
    assert!(g.expanded.borrow().is_empty());
}

#[test]
fn uniform_cost_orders_by_accumulated_cost() {
    // 0 -1-> 1 -5-> 3(goal, 6 in all); 0 -4-> 2 -3-> 4(goal, 7 in all).
    let g = graph(5, &[(0, 1, 1), (0, 2, 4), (1, 3, 5), (2, 4, 3)], &[]);
    let p = Problem::new(start(&g), |s: &Place| s.id == 3 || s.id == 4);
    assert_eq!(id(p.uniform_cost_search(step_cost)), Some(3));
    assert_eq!(*g.expanded.borrow(), vec![0, 1, 2]);
}

#[test]
fn uniform_cost_returns_the_cheapest_goal_of_a_tree() {
    // 0 -2-> 1 -2-> 3(goal, 4 in all); 0 -0-> 2 -5-> 4(goal, 5 in all).
    let g = graph(5, &[(0, 1, 2), (0, 2, 0), (1, 3, 2), (2, 4, 5)], &[]);
    let p = Problem::new(start(&g), |s: &Place| s.id == 3 || s.id == 4);
    assert_eq!(id(p.uniform_cost_search(step_cost)), Some(3));
    assert_eq!(*g.expanded.borrow(), vec![0, 2, 1]);
}

#[test]
fn equal_costs_are_taken_shallowest_first() {
    // 5 (depth 3) is queued before 6 (depth 2); both have accumulated cost 5.
    let edges = [(0, 1, 1), (0, 2, 3), (1, 3, 1), (3, 5, 3), (2, 6, 2)];
    let g = graph(7, &edges, &[]);
    let p = Problem::new(start(&g), |s: &Place| s.id == 5 || s.id == 6);
    assert_eq!(id(p.uniform_cost_search(step_cost)), Some(6));
    assert_eq!(*g.expanded.borrow(), vec![0, 1, 3, 2]);
}

#[test]
fn equal_costs_and_depths_are_taken_in_order_of_discovery() {
    let g = graph(3, &[(0, 1, 2), (0, 2, 2)], &[]);
    let p = Problem::new(start(&g), |s: &Place| s.id == 1 || s.id == 2);
    assert_eq!(id(p.uniform_cost_search(step_cost)), Some(1));
    assert_eq!(id(p.a_star_search(step_cost, no_estimate)), Some(1));
    assert_eq!(id(p.greedy_search(no_estimate)), Some(1));
}

#[test]
fn first_discovery_fixes_the_cost_of_a_state() {
    // 1 is first discovered at cost 10 and not requeued at cost 2 through 2,
    // so goal 4 (cost 5) is taken before goal 3 (queued at cost 11).
    let edges = [(0, 1, 10), (0, 2, 1), (0, 4, 5), (2, 1, 1), (1, 3, 1)];
    let g = graph(5, &edges, &[]);
    let p = Problem::new(start(&g), |s: &Place| s.id == 3 || s.id == 4);
    assert_eq!(id(p.uniform_cost_search(step_cost)), Some(4));
    assert_eq!(*g.expanded.borrow(), vec![0, 2]);
}

#[test]
fn greedy_scores_a_state_with_the_estimate_of_its_parent() {
    // Estimates: 0 -> 5, 1 -> 9, 2 -> 1.  3 (child of 1) is queued before 4
    // (child of 2) but 4 carries the smaller score.
    let g = graph(5, &[(0, 1, 1), (0, 2, 1), (1, 3, 1), (2, 4, 1)], &[]);
    let p = Problem::new(start(&g), |s: &Place| s.id == 3 || s.id == 4);
    let h = |s: &Place| -> u32 {
        match s.id {
            0 => 5,
            1 => 9,
            2 => 1,
            _ => 0,
        }
    };
    assert_eq!(id(p.greedy_search(h)), Some(4));
    assert_eq!(*g.expanded.borrow(), vec![0, 1, 2]);
}

#[test]
fn greedy_ignores_accumulated_cost() {
    // The cheap goal 3 hangs under the poorly estimated 1; greedy takes the dear goal 4.
    let g = graph(5, &[(0, 1, 1), (0, 2, 1), (1, 3, 1), (2, 4, 100)], &[]);
    let p = Problem::new(start(&g), |s: &Place| s.id == 3 || s.id == 4);
    let h = |s: &Place| -> u32 {
        match s.id {
            1 => 7,
            2 => 2,
            _ => 3,
        }
    };
    assert_eq!(id(p.greedy_search(h)), Some(4));
    assert_eq!(id(p.uniform_cost_search(step_cost)), Some(3));
}

#[test]
fn a_star_ranks_by_cost_plus_estimate_of_the_parent() {
    // 0 -2-> 1 -2-> 3(goal), 0 -0-> 2 -5-> 4(goal); estimates 0 -> 0, 1 -> 2, 2 -> 0.
    // Ranks: 1 -> 2, 2 -> 0, 4 -> 5 + 0, 3 -> 4 + 2.
    let g = graph(5, &[(0, 1, 2), (0, 2, 0), (1, 3, 2), (2, 4, 5)], &[]);
    let p = Problem::new(start(&g), |s: &Place| s.id == 3 || s.id == 4);
    let h = |s: &Place| -> u32 {
        if s.id == 1 {
            2
        } else {
            0
        }
    };
    assert_eq!(id(p.a_star_search(step_cost, h)), Some(4));
    assert_eq!(*g.expanded.borrow(), vec![0, 2, 1]);
}

#[test]
fn a_star_returns_the_cheapest_goal_where_no_rank_stands_in_the_way() {
    // 0 -2-> 1 -2-> 3(goal, 4 in all), 0 -1-> 2 -5-> 4(goal, 6 in all).
    // No state on the way to 3 is ranked above 4.
    let g = graph(5, &[(0, 1, 2), (0, 2, 1), (1, 3, 2), (2, 4, 5)], &[]);
    let p = Problem::new(start(&g), |s: &Place| s.id == 3 || s.id == 4);
    let h = |s: &Place| -> u32 {
        if s.id == 0 {
            2
        } else {
            0
        }
    };
    assert_eq!(id(p.a_star_search(step_cost, h)), Some(3));
    assert_eq!(*g.expanded.borrow(), vec![0, 2, 1]);
}

#[test]
fn a_star_with_zero_estimate_matches_uniform_cost() {
    let edges = [(0, 1, 3), (0, 2, 1), (1, 3, 1), (2, 3, 4), (2, 4, 7), (3, 5, 2), (4, 5, 1), (1, 6, 9)];
    let g = graph(7, &edges, &[]);
    let p = Problem::new(start(&g), |s: &Place| s.id == 5 || s.id == 6);
    let by_cost = id(p.uniform_cost_search(step_cost));
    let trace_cost = g.expanded.borrow().clone();
    g.expanded.borrow_mut().clear();
    let by_sum = id(p.a_star_search(step_cost, no_estimate));
    let trace_sum = g.expanded.borrow().clone();
    assert_eq!(by_cost, Some(5));
    assert_eq!(by_sum, by_cost);
    assert_eq!(trace_sum, trace_cost);
    assert_eq!(trace_cost, vec![0, 2, 1, 3]);
}

#[test]
fn costs_are_added_only_along_walks_that_repeat_no_state() {
    // Every step costs the most a `u32` holds less one; the cycle 0 -> 1 -> 0
    // is never walked twice, so no sum leaves the range.
    let big = u32::MAX - 1;
    let g = graph(3, &[(0, 1, 1), (1, 0, big), (1, 2, big)], &[]);
    let p = Problem::new(start(&g), |s: &Place| s.id == 2);
    assert_eq!(id(p.uniform_cost_search(step_cost)), Some(2));
    assert_eq!(id(p.a_star_search(step_cost, no_estimate)), Some(2));
}

#[test]
fn a_goal_behind_a_cycle_is_found_by_every_strategy() {
    // 0 -> 1 -> 2 -> 0 and 2 -> 3(goal).
    let g = graph(4, &[(0, 1, 1), (1, 2, 1), (2, 0, 1), (2, 3, 1)], &[]);
    let p = Problem::new(start(&g), |s: &Place| s.id == 3);
    assert_eq!(id(p.breadth_first_search()), Some(3));
    assert_eq!(id(p.depth_first_search()), Some(3));
    assert_eq!(id(p.uniform_cost_search(step_cost)), Some(3));
    assert_eq!(id(p.greedy_search(no_estimate)), Some(3));
    assert_eq!(id(p.a_star_search(step_cost, no_estimate)), Some(3));
}

#[test]
fn repeated_searches_return_the_same_state() {
    let edges = [(0, 1, 3), (0, 2, 1), (1, 3, 1), (2, 3, 4), (2, 4, 7), (3, 5, 2), (4, 5, 1)];
    let g = graph(6, &edges, &[]);
    let p = Problem::new(start(&g), |s: &Place| s.id >= 4);
    let h = |s: &Place| -> u32 { 5 - s.id as u32 };
    assert_eq!(id(p.breadth_first_search()), id(p.breadth_first_search()));
    assert_eq!(id(p.depth_first_search()), id(p.depth_first_search()));
    assert_eq!(id(p.uniform_cost_search(step_cost)), id(p.uniform_cost_search(step_cost)));
    assert_eq!(id(p.greedy_search(h)), id(p.greedy_search(h)));
    assert_eq!(id(p.a_star_search(step_cost, h)), id(p.a_star_search(step_cost, h)));
}

#[test]
fn every_strategy_returns_a_valid_goal() {
    let edges = [(0, 1, 3), (0, 2, 1), (1, 3, 1), (2, 3, 4), (2, 4, 7), (3, 5, 2), (4, 5, 1)];
    let g = graph(6, &edges, &[4]);
    let p = Problem::new(start(&g), |s: &Place| s.id >= 4);
    let h = |s: &Place| -> u32 { 5 - s.id as u32 };
    let all = vec![
        p.breadth_first_search(),
        p.depth_first_search(),
        p.uniform_cost_search(step_cost),
        p.greedy_search(h),
        p.a_star_search(step_cost, h),
    ];
    for found in all {
        let s = found.unwrap();
        assert!(s.is_valid());
        assert_eq!(s.id, 5);
    }
}

#[test]
fn dead_end_without_goal_is_exhausted() {
    let g = graph(3, &[(0, 1, 1), (0, 2, 1)], &[]);
    let p = Problem::new(start(&g), |s: &Place| s.id == 7);
    assert_eq!(id(p.breadth_first_search()), None);
    assert_eq!(*g.expanded.borrow(), vec![0, 1, 2]);
}

/// A state that keeps the default validity check.
#[derive(PartialEq, Eq, Hash)]
struct Count(u8);

impl State for Count {
    type Action = u8;

    fn get_actions(&self) -> Vec<&u8> {
        if self.0 < 5 {
            vec![&1u8, &2u8]
        } else {
            Vec::new()
        }
    }

    fn transfer(&self, action: &u8) -> Rc<Count> {
        Rc::new(Count(self.0 + *action))
    }
}

#[test]
fn states_are_valid_unless_the_domain_says_otherwise() {
    assert!(Count(3).is_valid());
    let p = Problem::new(Rc::new(Count(0)), |s: &Count| s.0 == 6);
    assert_eq!(p.breadth_first_search().map(|s| s.0), Some(6));
    assert_eq!(p.depth_first_search().map(|s| s.0), Some(6));
}

#[test]
fn costs_may_be_of_any_ordered_additive_type() {
    let p = Problem::new(Rc::new(Count(0)), |s: &Count| s.0 >= 5);
    let found = p.uniform_cost_search(|_s: &Count, a: &u8| (*a as i64) * 10);
    assert_eq!(found.map(|s| s.0), Some(5));
    let found = p.a_star_search(|_s: &Count, a: &u8| *a as u64, |s: &Count| (6 - s.0) as u64);
    assert_eq!(found.map(|s| s.0), Some(5));
}
