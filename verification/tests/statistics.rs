use mcts::node::Node;
use mcts::select::first_max;
use mcts::state::State;
use std::cell::Cell;

#[derive(Clone)]
struct Fixed(i32);

impl State for Fixed {
    type Action = u8;

    fn is_terminal(&self) -> bool {
        true
    }

    fn get_value(&self) -> i32 {
        self.0
    }

    fn get_actions(&self) -> Vec<u8> {
        Vec::new()
    }

    fn get_next_state(&self, _action: &u8) -> Self {
        Fixed(self.0)
    }
}

/// A root whose three children are worth `i32::MIN`, nothing yet, and 4.
#[derive(Clone)]
struct Low(u8);

impl State for Low {
    type Action = u8;

    fn is_terminal(&self) -> bool {
        self.0 != 0
    }

    fn get_value(&self) -> i32 {
        match self.0 {
            1 => i32::MIN,
            3 => 4,
            _ => 0,
        }
    }

    fn get_actions(&self) -> Vec<u8> {
        if self.0 == 0 { vec![2, 1, 3] } else { Vec::new() }
    }

    fn get_next_state(&self, action: &u8) -> Self {
        Low(*action)
    }
}

#[test]
fn node_without_visits_has_no_evaluation() {
    let node = Node::new(Fixed(3), Some(9));
    assert_eq!(node.evaluation(), None);
    assert_eq!(node.action(), Some(9));
    assert_eq!(node.num_visits(), 0);
}

#[test]
fn add_visit_counts_and_sums() {
    let mut node = Node::new(Fixed(0), None);
    node.add_visit(5);
    node.add_visit(-2);
    node.add_visit(9);
    assert_eq!(node.num_visits(), 3);
    assert_eq!(node.sum_evaluation(), 12);
    assert_eq!(node.evaluation(), Some(4));
}

#[test]
fn average_rounds_toward_zero() {
    let mut node = Node::new(Fixed(0), None);
    node.add_visit(-3);
    node.add_visit(-4);
    assert_eq!(node.evaluation(), Some(-3));
    let mut other = Node::new(Fixed(0), None);
    other.add_visit(3);
    other.add_visit(4);
    assert_eq!(other.evaluation(), Some(3));
    let mut mixed = Node::new(Fixed(0), None);
    mixed.add_visit(-1);
    mixed.add_visit(0);
    assert_eq!(mixed.evaluation(), Some(0));
}

#[test]
fn rollout_folds_the_value_of_the_state() {
    let mut node = Node::new(Fixed(-11), None);
    assert_eq!(node.rollout(), -11);
    assert_eq!(node.rollout(), -11);
    assert_eq!(node.num_visits(), 2);
    assert_eq!(node.sum_evaluation(), -22);
}

#[test]
fn equal_values_average_to_that_value() {
    for v in [0, 1, -1, 7, -7, 123_456_789, i32::MAX, i32::MIN] {
        let mut node = Node::new(Fixed(v), None);
        for n in 1..=1000u32 {
            node.rollout();
            assert_eq!(node.num_visits(), n);
            assert_eq!(node.evaluation(), Some(v));
        }
        assert_eq!(node.sum_evaluation(), 1000 * v as i64);
    }
}

#[test]
fn total_goes_past_thirty_two_bits_without_wrapping() {
    let mut node = Node::new(Fixed(0), None);
    node.add_visit(i32::MAX);
    node.add_visit(i32::MAX);
    node.add_visit(i32::MAX);
    assert_eq!(node.sum_evaluation(), 6_442_450_941);
    assert_eq!(node.evaluation(), Some(i32::MAX));
    node.add_visit(1);
    assert_eq!(node.sum_evaluation(), 6_442_450_942);
    assert_eq!(node.evaluation(), Some(1_610_612_735));
}

#[test]
fn total_goes_below_thirty_two_bits_without_wrapping() {
    let mut node = Node::new(Fixed(0), None);
    node.add_visit(i32::MIN);
    node.add_visit(i32::MIN);
    assert_eq!(node.sum_evaluation(), -4_294_967_296);
    assert_eq!(node.evaluation(), Some(i32::MIN));
    node.add_visit(-1);
    assert_eq!(node.sum_evaluation(), -4_294_967_297);
    assert_eq!(node.evaluation(), Some(-1_431_655_765));
}

#[test]
fn unvisited_child_ranks_below_the_lowest_average() {
    let mut node = Node::new(Low(0), None);
    node.discover_children();
    assert_eq!(node.get_best_action(), Some(2));
    // Visit only the second child, which is worth `i32::MIN`.
    let calls = Cell::new(0u32);
    let second = |_a: Option<i32>, _v: u32, _p: u32| -> i64 {
        let k = calls.get();
        calls.set(k + 1);
        if k == 1 { 1 } else { 0 }
    };
    assert_eq!(node.mcts(&second), i32::MIN);
    assert_eq!(node.child(0).num_visits(), 0);
    assert_eq!(node.child(1).num_visits(), 1);
    assert_eq!(node.child(2).num_visits(), 0);
    assert_eq!(node.child(1).evaluation(), Some(i32::MIN));
    assert_eq!(node.get_best_action(), Some(1));
}

#[test]
fn visited_child_with_the_greatest_average_is_recommended() {
    let mut node = Node::new(Low(0), None);
    node.discover_children();
    let fewest = |_a: Option<i32>, visits: u32, _p: u32| -> i64 { -(visits as i64) };
    for _ in 0..3 {
        node.mcts(&fewest);
    }
    assert_eq!(node.child(0).evaluation(), Some(0));
    assert_eq!(node.child(1).evaluation(), Some(i32::MIN));
    assert_eq!(node.child(2).evaluation(), Some(4));
    assert_eq!(node.get_best_action(), Some(3));
    assert_eq!(node.num_visits(), 3);
    assert_eq!(node.sum_evaluation(), i32::MIN as i64 + 4);
}

#[test]
fn first_max_of_nothing_is_nothing() {
    assert_eq!(first_max(&Vec::new()), None);
}

#[test]
fn first_max_takes_the_first_of_the_greatest() {
    assert_eq!(first_max(&vec![5]), Some(0));
    assert_eq!(first_max(&vec![1, 9, 3, 9, 2]), Some(1));
    assert_eq!(first_max(&vec![4, 4, 4]), Some(0));
    assert_eq!(first_max(&vec![i64::MIN, i64::MIN]), Some(0));
    assert_eq!(first_max(&vec![-3, -1, -2]), Some(1));
    assert_eq!(first_max(&vec![1, 2, i64::MAX]), Some(2));
}

#[test]
fn recorded_statistics_are_taken_within_their_bounds() {
    let node = Node::with_statistics(Fixed(0), Some(4), -9, 3).unwrap();
    assert_eq!(node.num_visits(), 3);
    assert_eq!(node.sum_evaluation(), -9);
    assert_eq!(node.evaluation(), Some(-3));
    assert_eq!(node.action(), Some(4));
    assert_eq!(node.num_children(), 0);
    assert!(!node.is_expanded());
    assert!(Node::with_statistics(Fixed(0), None, 0, 0).is_some());
    assert!(Node::with_statistics(Fixed(0), None, 2 * i32::MAX as i64, 2).is_some());
    assert!(Node::with_statistics(Fixed(0), None, 2 * i32::MIN as i64, 2).is_some());
}

#[test]
fn recorded_statistics_outside_their_bounds_are_refused() {
    assert!(Node::with_statistics(Fixed(0), None, 1, 0).is_none());
    assert!(Node::with_statistics(Fixed(0), None, -1, 0).is_none());
    assert!(Node::with_statistics(Fixed(0), None, 2 * i32::MAX as i64 + 1, 2).is_none());
    assert!(Node::with_statistics(Fixed(0), None, 2 * i32::MIN as i64 - 1, 2).is_none());
    assert!(Node::with_statistics(Fixed(0), None, i64::MAX, u32::MAX).is_none());
    assert!(Node::with_statistics(Fixed(0), None, i64::MIN, u32::MAX).is_none());
}

#[test]
fn statistics_stay_as_they_are_at_the_visit_limit() {
    let mut node = Node::with_statistics(Fixed(9), None, 5, u32::MAX).unwrap();
    node.add_visit(7);
    assert_eq!(node.num_visits(), u32::MAX);
    assert_eq!(node.sum_evaluation(), 5);
    assert_eq!(node.rollout(), 9);
    assert_eq!(node.num_visits(), u32::MAX);
    assert_eq!(node.sum_evaluation(), 5);
    assert_eq!(node.evaluation(), Some(0));
}

#[test]
fn greatest_total_is_reached_without_wrapping() {
    let most = (u32::MAX as i64 - 1) * i32::MAX as i64;
    let mut node = Node::with_statistics(Fixed(0), None, most, u32::MAX - 1).unwrap();
    assert_eq!(node.evaluation(), Some(i32::MAX));
    node.add_visit(i32::MAX);
    assert_eq!(node.num_visits(), u32::MAX);
    assert_eq!(node.sum_evaluation(), 9_223_372_030_412_324_865);
    assert_eq!(node.evaluation(), Some(i32::MAX));
    node.add_visit(i32::MAX);
    assert_eq!(node.num_visits(), u32::MAX);
    assert_eq!(node.sum_evaluation(), 9_223_372_030_412_324_865);
}

#[test]
fn least_total_is_reached_without_wrapping() {
    let least = (u32::MAX as i64 - 1) * i32::MIN as i64;
    let mut node = Node::with_statistics(Fixed(0), None, least, u32::MAX - 1).unwrap();
    assert_eq!(node.evaluation(), Some(i32::MIN));
    node.add_visit(i32::MIN);
    assert_eq!(node.num_visits(), u32::MAX);
    assert_eq!(node.sum_evaluation(), -9_223_372_034_707_292_160);
    assert_eq!(node.evaluation(), Some(i32::MIN));
    node.add_visit(i32::MIN);
    assert_eq!(node.sum_evaluation(), -9_223_372_034_707_292_160);
}

#[test]
fn iteration_at_the_visit_limit_still_reaches_the_children() {
    let mut node = Node::with_statistics(Low(0), None, 0, u32::MAX).unwrap();
    let fewest = |_a: Option<i32>, visits: u32, _p: u32| -> i64 { -(visits as i64) };
    assert_eq!(node.mcts(&fewest), 0);
    assert_eq!(node.num_visits(), u32::MAX);
    assert_eq!(node.sum_evaluation(), 0);
    assert_eq!(node.num_children(), 3);
    assert_eq!(node.child(0).num_visits(), 1);
    assert_eq!(node.mcts(&fewest), i32::MIN);
    assert_eq!(node.sum_evaluation(), 0);
    assert_eq!(node.child(1).sum_evaluation(), i32::MIN as i64);
}
