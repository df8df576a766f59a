use vstd::prelude::*;
use crate::model::{
    lemma_child_reach, lemma_expand_reach, lemma_expand_wf, lemma_fold_wf, quotient, visit_limit,
    NodeView,
};
use crate::select::{is_first_max, lemma_first_max_index, lemma_first_max_unique};
use crate::state::{actions_of, value_of, State};

verus! {

/// The sum of `values`.
pub open spec fn sum(values: Seq<i32>) -> int
    decreases values.len(),
{
    if values.len() == 0 {
        0
    } else {
        sum(values.drop_last()) + values.last()
    }
}

/// The values that the first `count` iterations from `node` fold back, in
/// order.
pub open spec fn values<S: State>(
    node: NodeView<S>,
    policy: spec_fn(Option<i32>, u32, u32) -> i64,
    count: nat,
) -> Seq<i32>
    decreases count,
{
    if count == 0 {
        Seq::empty()
    } else {
        values(node, policy, (count - 1) as nat).push(
            node.after(policy, (count - 1) as nat).step(policy).1,
        )
    }
}

/// One iteration folds the value it returns into the vertex it starts from,
/// and leaves that vertex's state and action alone.
pub proof fn lemma_step_folds<S: State>(
    node: NodeView<S>,
    policy: spec_fn(Option<i32>, u32, u32) -> i64,
)
    ensures
        node.step(policy).0.holds_fold_of(node, node.step(policy).1),
        node.descend(policy).0.holds_fold_of(node, node.descend(policy).1),
{
}

/// One iteration changes at most one child of a vertex that has children:
/// the selected one, which makes one iteration of its own.
pub proof fn lemma_step_children<S: State>(
    node: NodeView<S>,
    policy: spec_fn(Option<i32>, u32, u32) -> i64,
)
    requires
        node.children.len() > 0,
    ensures
        0 <= node.selected(policy) < node.children.len(),
        is_first_max(node.priorities(policy), node.selected(policy)),
        node.step(policy).0.children.len() == node.children.len(),
        node.step(policy).0.expanded == node.expanded,
        node.step(policy).1 == node.children[node.selected(policy)].step(policy).1,
        forall|j: int|
            0 <= j < node.children.len() ==> #[trigger] node.step(policy).0.children[j] == if j
                == node.selected(policy) {
                node.children[j].step(policy).0
            } else {
                node.children[j]
            },
{
    lemma_first_max_index(node.priorities(policy));
}

/// A way on which an iteration descends stays inside the tree.
pub proof fn lemma_descends_has<S: State>(
    node: NodeView<S>,
    policy: spec_fn(Option<i32>, u32, u32) -> i64,
    path: Seq<usize>,
)
    requires
        node.descends(policy, path),
    ensures
        node.has(path),
    decreases path.len(),
{
    if path.len() > 0 {
        lemma_descends_has(node, policy, path.drop_last());
        lemma_first_max_index(node.at(path.drop_last()).priorities(policy));
    }
}

/// After `count` iterations a vertex has `count` more visits, and its total
/// has grown by the sum of the values that they folded back, as long as the
/// visit count stays within its limit.
pub proof fn lemma_iterations_counted<S: State>(
    node: NodeView<S>,
    policy: spec_fn(Option<i32>, u32, u32) -> i64,
    count: nat,
)
    requires
        node.visits + count <= visit_limit(),
    ensures
        values(node, policy, count).len() == count,
        node.after(policy, count).visits == node.visits + count,
        node.after(policy, count).total == node.total + sum(values(node, policy, count)),
        node.after(policy, count).state == node.state,
        node.after(policy, count).action == node.action,
    decreases count,
{
    if count > 0 {
        let before = (count - 1) as nat;
        lemma_iterations_counted(node, policy, before);
        lemma_step_folds(node.after(policy, before), policy);
        let folded = values(node, policy, count);
        assert(folded.drop_last() =~= values(node, policy, before));
    }
}

/// A call for expansion after the first changes nothing.
pub proof fn lemma_expansion_idempotent<S: State>(node: NodeView<S>)
    ensures
        node.expanded_once().expanded,
        node.expanded_once().expanded_once() == node.expanded_once(),
{
}

/// An expanded vertex is not expanded again: an iteration keeps it expanded
/// and keeps each of its children, with what was folded into them.
pub proof fn lemma_step_keeps_expansion<S: State>(
    node: NodeView<S>,
    policy: spec_fn(Option<i32>, u32, u32) -> i64,
)
    requires
        node.wf(),
        node.expanded,
    ensures
        node.step(policy).0.expanded,
        node.step(policy).0.children.len() == node.children.len(),
        forall|j: int|
            0 <= j < node.children.len() ==> (#[trigger] node.step(policy).0.children[j]).visits
                >= node.children[j].visits,
{
    if node.children.len() > 0 {
        lemma_step_children(node, policy);
        let i = node.selected(policy);
        lemma_step_folds(node.children[i], policy);
    }
}

/// An iteration expands a vertex only if it was visited and not yet
/// expanded; otherwise the vertex is expanded afterwards exactly if it was
/// before.
pub proof fn lemma_step_expands_visited_only<S: State>(
    node: NodeView<S>,
    policy: spec_fn(Option<i32>, u32, u32) -> i64,
)
    requires
        node.wf(),
    ensures
        node.step(policy).0.expanded <==> node.expanded || node.visits > 0,
{
    if node.children.len() > 0 {
        lemma_step_children(node, policy);
    }
}

/// An iteration keeps a well-formed tree well-formed.
pub proof fn lemma_step_wf<S: State>(
    node: NodeView<S>,
    policy: spec_fn(Option<i32>, u32, u32) -> i64,
)
    requires
        node.wf(),
    ensures
        node.step(policy).0.wf(),
    decreases node.reach(), 1nat,
{
    if node.children.len() > 0 {
        lemma_descend_wf(node, policy);
    } else if node.expanded || node.visits == 0 {
        lemma_fold_wf(node, value_of(node.state));
    } else {
        lemma_expand_wf(node);
        lemma_expand_reach(node);
        lemma_descend_wf(node.expand(), policy);
    }
}

/// A descent keeps a well-formed tree well-formed.
pub proof fn lemma_descend_wf<S: State>(
    node: NodeView<S>,
    policy: spec_fn(Option<i32>, u32, u32) -> i64,
)
    requires
        node.wf(),
    ensures
        node.descend(policy).0.wf(),
    decreases node.reach(), 0nat,
{
    if node.children.len() == 0 {
        lemma_fold_wf(node, value_of(node.state));
    } else {
        let i = node.selected(policy);
        lemma_first_max_index(node.priorities(policy));
        lemma_child_reach(node, i);
        assert(node.children[i].wf());
        lemma_step_wf(node.children[i], policy);
        lemma_step_folds(node.children[i], policy);
        let below = node.children[i].step(policy);
        let middle = node.with_child(i, below.0);
        assert forall|j: int| 0 <= j < middle.children.len() implies (
        #[trigger] middle.children[j]).wf() by {
            if j != i {
                assert(node.children[j].wf());
            }
        }
        assert(middle.wf());
        lemma_fold_wf(middle, below.1);
    }
}

/// Any number of iterations keeps a well-formed tree well-formed.
pub proof fn lemma_after_wf<S: State>(
    node: NodeView<S>,
    policy: spec_fn(Option<i32>, u32, u32) -> i64,
    count: nat,
)
    requires
        node.wf(),
    ensures
        node.after(policy, count).wf(),
    decreases count,
{
    if count > 0 {
        lemma_after_wf(node, policy, (count - 1) as nat);
        lemma_step_wf(node.after(policy, (count - 1) as nat), policy);
    }
}

/// Where there is a child, best-action selection finds one: the action of
/// the first child with the greatest rank, which is one of the legal actions
/// of the vertex's state.
pub proof fn lemma_best_action<S: State>(node: NodeView<S>)
    requires
        node.wf(),
        node.children.len() > 0,
    ensures
        0 <= node.best_child() < node.children.len(),
        is_first_max(node.ranks(), node.best_child()),
        node.best_action() == Some(actions_of(node.state)[node.best_child()]),
        actions_of(node.state).contains(node.best_action().unwrap()),
{
    lemma_first_max_index(node.ranks());
    let i = node.best_child();
    assert(node.children[i].action == Some(actions_of(node.state)[i]));
}

/// Among children that were never visited, best-action selection takes the
/// first.
pub proof fn lemma_best_action_of_unvisited<S: State>(node: NodeView<S>)
    requires
        node.wf(),
        node.children.len() > 0,
        forall|j: int| 0 <= j < node.children.len() ==> (#[trigger] node.children[j]).visits == 0,
    ensures
        node.best_child() == 0,
        node.best_action() == Some(actions_of(node.state)[0]),
{
    lemma_best_action(node);
    let ranks = node.ranks();
    assert forall|j: int| 0 <= j < ranks.len() implies #[trigger] ranks[j] == ranks[0] by {
        assert(node.children[j].visits == 0);
        assert(node.children[0].visits == 0);
    }
    assert(is_first_max(ranks, 0));
    lemma_first_max_unique(ranks, 0, node.best_child());
}

/// A child that was never visited is not recommended while a sibling was
/// visited.
pub proof fn lemma_best_action_prefers_visited<S: State>(node: NodeView<S>, j: int)
    requires
        node.wf(),
        0 <= j < node.children.len(),
        node.children[j].visits > 0,
    ensures
        node.children[node.best_child()].visits > 0,
{
    lemma_best_action(node);
    let i = node.best_child();
    let ranks = node.ranks();
    assert(ranks[j] <= ranks[i]);
    assert(ranks[j] == node.children[j].rank());
    assert(ranks[i] == node.children[i].rank());
}

/// The sum of `values` that all equal `value` is their number times `value`.
pub proof fn lemma_sum_of_equal(values: Seq<i32>, value: i32)
    requires
        forall|i: int| 0 <= i < values.len() ==> #[trigger] values[i] == value,
    ensures
        sum(values) == values.len() * value,
    decreases values.len(),
{
    if values.len() > 0 {
        let front = values.drop_last();
        assert forall|i: int| 0 <= i < front.len() implies #[trigger] front[i] == value by {
            assert(front[i] == values[i]);
        }
        lemma_sum_of_equal(front, value);
        assert(sum(values) == front.len() * value + value);
        assert(front.len() * value + value == values.len() * value) by (nonlinear_arith)
            requires
                front.len() + 1 == values.len(),
        ;
    }
}

/// A vertex whose visits all folded the same value has exactly that value
/// as its average.
pub proof fn lemma_average_of_equal<S: State>(node: NodeView<S>, value: i32)
    requires
        node.visits > 0,
        node.total == node.visits * value,
    ensures
        node.average() == Some(value),
{
    let n = node.visits as int;
    let v = value as int;
    if v >= 0 {
        assert(n * v >= 0) by (nonlinear_arith)
            requires
                n > 0,
                v >= 0,
        ;
        assert((n * v) / n == v) by (nonlinear_arith)
            requires
                n > 0,
        ;
    } else {
        assert(n * v < 0) by (nonlinear_arith)
            requires
                n > 0,
                v < 0,
        ;
        assert(-(n * v) == n * (-v)) by (nonlinear_arith);
        assert((n * (-v)) / n == -v) by (nonlinear_arith)
            requires
                n > 0,
        ;
    }
    assert(quotient(node.total, n) == v);
}

/// After iterations that all folded back the same value, a vertex that was
/// fresh before has exactly that value as its average.
pub proof fn lemma_equal_values_average<S: State>(
    node: NodeView<S>,
    policy: spec_fn(Option<i32>, u32, u32) -> i64,
    count: nat,
    value: i32,
)
    requires
        node.visits == 0,
        node.total == 0,
        0 < count <= visit_limit(),
        forall|i: int| 0 <= i < count ==> #[trigger] values(node, policy, count)[i] == value,
    ensures
        node.after(policy, count).average() == Some(value),
{
    lemma_iterations_counted(node, policy, count);
    lemma_sum_of_equal(values(node, policy, count), value);
    lemma_average_of_equal(node.after(policy, count), value);
}

} // verus!
