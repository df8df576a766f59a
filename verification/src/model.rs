use vstd::prelude::*;
use crate::select::{first_max_index, lemma_first_max_index};
use crate::state::{actions_of, successor_of, value_of, State};

verus! {

/// A search-tree vertex as a mathematical value: the statistics are unbounded
/// integers and the children form a sequence of such values.
pub struct NodeView<S: State> {
    /// The configuration that this vertex stands for.
    pub state: S,
    /// The action that led here from the parent; the root has none.
    pub action: Option<S::Action>,
    /// Sum of the values folded into this vertex.
    pub total: int,
    /// How many values were folded into this vertex.
    pub visits: nat,
    /// The children, in the order of the legal actions they were made from.
    pub children: Seq<NodeView<S>>,
    /// Whether the children were already made.
    pub expanded: bool,
}

/// The largest visit count a vertex records. A vertex that has reached it
/// keeps its statistics as they are: they never wrap around.
pub open spec fn visit_limit() -> nat {
    u32::MAX as nat
}

/// The visit count that a vertex records after `visits` visits.
pub open spec fn capped(visits: nat) -> nat {
    if visits <= visit_limit() {
        visits
    } else {
        visit_limit()
    }
}

/// Whether `total` lies between the least and the greatest sum that `visits`
/// values of 32 bits can have.
pub open spec fn bounds(visits: nat, total: int) -> bool {
    visits * (i32::MIN as int) <= total <= visits * (i32::MAX as int)
}

/// Quotient of `total` by `visits`, rounded toward zero.
pub open spec fn quotient(total: int, visits: int) -> int
    recommends
        visits > 0,
{
    if total >= 0 {
        total / visits
    } else {
        -((-total) / visits)
    }
}

/// Whether the scoring function `score` returns what `policy` says, whatever
/// statistics it is given.
pub open spec fn computes<F: Fn(Option<i32>, u32, u32) -> i64>(
    score: F,
    policy: spec_fn(Option<i32>, u32, u32) -> i64,
) -> bool {
    forall|average: Option<i32>, visits: u32, parent_visits: u32, priority: i64|
        call_ensures(score, (average, visits, parent_visits), priority) ==> priority == policy(
            average,
            visits,
            parent_visits,
        )
}

/// Whether the scoring function `score` accepts every statistics.
pub open spec fn total<F: Fn(Option<i32>, u32, u32) -> i64>(score: F) -> bool {
    forall|average: Option<i32>, visits: u32, parent_visits: u32|
        call_requires(score, (average, visits, parent_visits))
}

/// The priorities that `policy` gives `children` under a parent with
/// `parent_visits` visits, in order. The policy sees a child's average, its
/// visit count and the parent's visit count.
pub open spec fn priorities_among<S: State>(
    children: Seq<NodeView<S>>,
    parent_visits: nat,
    policy: spec_fn(Option<i32>, u32, u32) -> i64,
) -> Seq<i64> {
    Seq::new(
        children.len(),
        |i: int| policy(children[i].average(), children[i].visits as u32, parent_visits as u32),
    )
}

impl<S: State> NodeView<S> {
    /// A vertex that was neither visited nor expanded.
    pub open spec fn leaf(state: S, action: Option<S::Action>) -> Self {
        NodeView { state, action, total: 0, visits: 0, children: Seq::empty(), expanded: false }
    }

    /// The statistics are those of at most `visit_limit` values of 32 bits.
    pub open spec fn bounded(self) -> bool {
        &&& self.visits <= visit_limit()
        &&& bounds(self.visits, self.total)
    }

    /// The children are exactly what expansion makes of this vertex's state,
    /// up to what was folded into them since.
    pub open spec fn children_match(self) -> bool {
        if self.expanded {
            &&& self.children.len() == actions_of(self.state).len()
            &&& forall|i: int|
                0 <= i < self.children.len() ==> {
                    &&& (#[trigger] self.children[i]).action == Some(actions_of(self.state)[i])
                    &&& self.children[i].state == successor_of(self.state, actions_of(self.state)[i])
                }
        } else {
            self.children.len() == 0
        }
    }

    /// Well-formedness of a whole subtree.
    pub open spec fn wf(self) -> bool
        decreases self,
    {
        &&& self.bounded()
        &&& self.children_match()
        &&& forall|i: int| 0 <= i < self.children.len() ==> (#[trigger] self.children[i]).wf()
    }

    /// The running average, rounded toward zero; nothing before the first visit.
    pub open spec fn average(self) -> Option<i32> {
        if self.visits == 0 {
            None
        } else {
            Some(quotient(self.total, self.visits as int) as i32)
        }
    }

    /// This vertex after `value` was folded into it.
    pub open spec fn fold(self, value: i32) -> Self {
        if self.visits < visit_limit() {
            NodeView { total: self.total + value, visits: self.visits + 1, ..self }
        } else {
            self
        }
    }

    /// Whether this vertex is `before` with `value` folded into its
    /// statistics, whatever became of the children.
    pub open spec fn holds_fold_of(self, before: Self, value: i32) -> bool {
        &&& self.state == before.state
        &&& self.action == before.action
        &&& self.total == before.fold(value).total
        &&& self.visits == before.fold(value).visits
    }

    /// This vertex with children made from its state's legal actions.
    pub open spec fn expand(self) -> Self {
        NodeView {
            children: Seq::new(
                actions_of(self.state).len(),
                |i: int|
                    Self::leaf(
                        successor_of(self.state, actions_of(self.state)[i]),
                        Some(actions_of(self.state)[i]),
                    ),
            ),
            expanded: true,
            ..self
        }
    }

    /// This vertex after a call for its expansion: expanded if it was not,
    /// and unchanged if it was.
    pub open spec fn expanded_once(self) -> Self {
        if self.expanded {
            self
        } else {
            self.expand()
        }
    }

    /// This vertex with its `i`-th child replaced.
    pub open spec fn with_child(self, i: int, child: Self) -> Self
        recommends
            0 <= i < self.children.len(),
    {
        NodeView { children: self.children.update(i, child), ..self }
    }

    /// How deep one iteration can go below this vertex.
    pub open spec fn reach(self) -> nat
        decreases self,
    {
        if self.children.len() > 0 {
            1 + Self::forest_reach(self.children)
        } else if !self.expanded && self.visits > 0 {
            1
        } else {
            0
        }
    }

    /// The greatest `reach` among `nodes`.
    pub open spec fn forest_reach(nodes: Seq<Self>) -> nat
        decreases nodes,
    {
        if nodes.len() == 0 {
            0
        } else {
            let last = nodes.last().reach();
            let front = Self::forest_reach(nodes.drop_last());
            if last > front {
                last
            } else {
                front
            }
        }
    }

    /// This vertex after a rollout, and the value that the rollout gave.
    pub open spec fn rollout(self) -> (Self, i32) {
        (self.fold(value_of(self.state)), value_of(self.state))
    }

    /// The priorities that `policy` gives the children, in order.
    pub open spec fn priorities(self, policy: spec_fn(Option<i32>, u32, u32) -> i64) -> Seq<i64> {
        priorities_among(self.children, self.visits, policy)
    }

    /// The position of the child that one iteration descends into: the first
    /// of those with the greatest priority.
    pub open spec fn selected(self, policy: spec_fn(Option<i32>, u32, u32) -> i64) -> int
        recommends
            self.children.len() > 0,
    {
        first_max_index(self.priorities(policy))
    }

    /// One iteration from this vertex: the vertex afterwards, and the value
    /// that was folded back.
    ///
    /// A vertex with children descends. One without, that is expanded or was
    /// never visited, is rolled out. One that was visited and not yet expanded
    /// is expanded first.
    pub open spec fn step(self, policy: spec_fn(Option<i32>, u32, u32) -> i64) -> (Self, i32)
        decreases self.reach(), 1nat,
    {
        if self.children.len() > 0 {
            self.descend(policy)
        } else if self.expanded || self.visits == 0 {
            self.rollout()
        } else {
            proof {
                lemma_expand_reach(self);
            }
            self.expand().descend(policy)
        }
    }

    /// One iteration through the selected child, whose value is folded into
    /// this vertex too; a rollout where there is no child.
    pub open spec fn descend(self, policy: spec_fn(Option<i32>, u32, u32) -> i64) -> (Self, i32)
        decreases self.reach(), 0nat,
    {
        if self.children.len() == 0 {
            self.rollout()
        } else {
            let i = self.selected(policy);
            proof {
                lemma_first_max_index(self.priorities(policy));
                lemma_child_reach(self, i);
            }
            let below = self.children[i].step(policy);
            (self.with_child(i, below.0).fold(below.1), below.1)
        }
    }

    /// This vertex after `count` iterations in a row.
    pub open spec fn after(self, policy: spec_fn(Option<i32>, u32, u32) -> i64, count: nat) -> Self
        decreases count,
    {
        if count == 0 {
            self
        } else {
            self.after(policy, (count - 1) as nat).step(policy).0
        }
    }

    /// The tree that is left when the search moves on to the `i`-th child:
    /// that child's subtree with its statistics, as a root without an action.
    pub open spec fn rerooted(self, i: int) -> Self
        recommends
            0 <= i < self.children.len(),
    {
        NodeView { action: None, ..self.children[i] }
    }

    /// The vertex that `path` leads to from this one; each entry of `path`
    /// is the position of a child.
    pub open spec fn at(self, path: Seq<usize>) -> Self
        decreases path.len(),
    {
        if path.len() == 0 {
            self
        } else {
            self.at(path.drop_last()).children[path.last() as int]
        }
    }

    /// Whether `path` stays inside this tree.
    pub open spec fn has(self, path: Seq<usize>) -> bool
        decreases path.len(),
    {
        path.len() == 0 || (self.has(path.drop_last()) && path.last() < self.at(
            path.drop_last(),
        ).children.len())
    }

    /// Whether `path` is the way on which an iteration by `policy` descends
    /// from this vertex, or the beginning of it.
    pub open spec fn descends(
        self,
        policy: spec_fn(Option<i32>, u32, u32) -> i64,
        path: Seq<usize>,
    ) -> bool
        decreases path.len(),
    {
        path.len() == 0 || {
            let above = self.at(path.drop_last());
            &&& self.descends(policy, path.drop_last())
            &&& above.children.len() > 0
            &&& path.last() == above.selected(policy)
        }
    }

    /// This tree with `below` in the place of the vertex that `path` leads
    /// to, and `value` folded into every vertex above that place.
    pub open spec fn put(self, path: Seq<usize>, below: Self, value: i32) -> Self
        decreases path.len(),
    {
        if path.len() == 0 {
            below
        } else {
            let above = self.at(path.drop_last());
            self.put(
                path.drop_last(),
                above.with_child(path.last() as int, below).fold(value),
                value,
            )
        }
    }

    /// This vertex with `children` as the outcome of its expansion.
    pub open spec fn grown(self, children: Seq<Self>) -> Self {
        NodeView { children, expanded: true, ..self }
    }

    /// What best-action selection ranks a child by: its average, or, when it
    /// has none, a value below every average.
    pub open spec fn rank(self) -> i64 {
        match self.average() {
            Some(a) => a as i64,
            None => (i32::MIN - 1) as i64,
        }
    }

    /// The ranks of the children, in order.
    pub open spec fn ranks(self) -> Seq<i64> {
        Seq::new(self.children.len(), |i: int| self.children[i].rank())
    }

    /// The position of the child that best-action selection picks.
    pub open spec fn best_child(self) -> int
        recommends
            self.children.len() > 0,
    {
        first_max_index(self.ranks())
    }

    /// The recommended action: that of the first child with the greatest rank.
    pub open spec fn best_action(self) -> Option<S::Action> {
        if self.children.len() == 0 {
            None
        } else {
            self.children[self.best_child()].action
        }
    }
}

/// No vertex among `nodes` reaches deeper than the forest does.
pub proof fn lemma_forest_reach<S: State>(nodes: Seq<NodeView<S>>, i: int)
    requires
        0 <= i < nodes.len(),
    ensures
        nodes[i].reach() <= NodeView::forest_reach(nodes),
    decreases nodes.len(),
{
    if i < nodes.len() - 1 {
        lemma_forest_reach(nodes.drop_last(), i);
        assert(nodes.drop_last()[i] == nodes[i]);
    }
}

/// A forest of vertices that reach no deeper than `bound` reaches no deeper.
pub proof fn lemma_forest_reach_bound<S: State>(nodes: Seq<NodeView<S>>, bound: nat)
    requires
        forall|i: int| 0 <= i < nodes.len() ==> (#[trigger] nodes[i]).reach() <= bound,
    ensures
        NodeView::forest_reach(nodes) <= bound,
    decreases nodes.len(),
{
    if nodes.len() > 0 {
        let front = nodes.drop_last();
        assert forall|i: int| 0 <= i < front.len() implies (#[trigger] front[i]).reach() <= bound by {
            assert(front[i] == nodes[i]);
        }
        lemma_forest_reach_bound(front, bound);
    }
}

/// A child reaches less deep than its parent.
pub proof fn lemma_child_reach<S: State>(node: NodeView<S>, i: int)
    requires
        0 <= i < node.children.len(),
    ensures
        node.children[i].reach() < node.reach(),
{
    lemma_forest_reach(node.children, i);
}

/// Expansion of a visited vertex without children does not deepen its reach.
pub proof fn lemma_expand_reach<S: State>(node: NodeView<S>)
    requires
        node.children.len() == 0,
        !node.expanded,
        node.visits > 0,
    ensures
        node.expand().reach() <= node.reach(),
{
    let made = node.expand();
    assert forall|i: int| 0 <= i < made.children.len() implies (#[trigger] made.children[i]).reach()
        <= 0 by {}
    lemma_forest_reach_bound(made.children, 0);
}

/// The vertex that a path inside a well-formed tree leads to is well-formed.
pub proof fn lemma_at_wf<S: State>(node: NodeView<S>, path: Seq<usize>)
    requires
        node.wf(),
        node.has(path),
    ensures
        node.at(path).wf(),
    decreases path.len(),
{
    if path.len() > 0 {
        lemma_at_wf(node, path.drop_last());
        let above = node.at(path.drop_last());
        assert(above.children[path.last() as int].wf());
    }
}

/// One iteration is the iteration of any vertex on its way down, put back
/// in place, with its value folded into every vertex above.
pub proof fn lemma_step_along<S: State>(
    node: NodeView<S>,
    policy: spec_fn(Option<i32>, u32, u32) -> i64,
    path: Seq<usize>,
)
    requires
        node.descends(policy, path),
    ensures
        node.step(policy) == (
            node.put(path, node.at(path).step(policy).0, node.at(path).step(policy).1),
            node.at(path).step(policy).1,
        ),
    decreases path.len(),
{
    if path.len() > 0 {
        lemma_step_along(node, policy, path.drop_last());
    }
}

/// Putting a well-formed vertex in the place of one with the same state and
/// action, inside a well-formed tree, gives a well-formed tree with `value`
/// folded into its root.
pub proof fn lemma_put_wf<S: State>(
    node: NodeView<S>,
    path: Seq<usize>,
    below: NodeView<S>,
    value: i32,
)
    requires
        node.wf(),
        node.has(path),
        below.wf(),
        below.holds_fold_of(node.at(path), value),
    ensures
        node.put(path, below, value).wf(),
        node.put(path, below, value).holds_fold_of(node, value),
    decreases path.len(),
{
    if path.len() > 0 {
        let front = path.drop_last();
        let k = path.last() as int;
        lemma_at_wf(node, front);
        let above = node.at(front);
        let middle = above.with_child(k, below);
        assert forall|j: int| 0 <= j < middle.children.len() implies (
        #[trigger] middle.children[j]).wf() by {
            if j != k {
                assert(above.children[j].wf());
            }
        }
        assert(middle.wf());
        lemma_fold_wf(middle, value);
        lemma_put_wf(node, front, middle.fold(value), value);
    }
}

/// The average of `visits` values of 32 bits is a value of 32 bits.
pub proof fn lemma_quotient_bounded(total: int, visits: int)
    requires
        visits > 0,
        visits * (i32::MIN as int) <= total <= visits * (i32::MAX as int),
    ensures
        i32::MIN <= quotient(total, visits) <= i32::MAX,
{
    let lo = i32::MIN as int;
    let hi = i32::MAX as int;
    if total >= 0 {
        assert(total / visits <= hi) by (nonlinear_arith)
            requires
                visits > 0,
                0 <= total <= visits * hi,
        ;
        assert(total / visits >= 0) by (nonlinear_arith)
            requires
                visits > 0,
                0 <= total,
        ;
    } else {
        let m = -total;
        assert(m <= visits * (-lo)) by (nonlinear_arith)
            requires
                m == -total,
                visits * lo <= total,
        ;
        assert(m / visits <= -lo) by (nonlinear_arith)
            requires
                visits > 0,
                0 <= m <= visits * (-lo),
        ;
        assert(m / visits >= 0) by (nonlinear_arith)
            requires
                visits > 0,
                0 <= m,
        ;
    }
}

/// A path inside a tree begins with paths inside the tree.
pub proof fn lemma_has_prefix<S: State>(node: NodeView<S>, path: Seq<usize>, length: int)
    requires
        node.has(path),
        0 <= length <= path.len(),
    ensures
        node.has(path.take(length)),
        length > 0 ==> path[length - 1] < node.at(path.take(length - 1)).children.len(),
    decreases path.len(),
{
    if length == path.len() {
        assert(path.take(length) =~= path);
        if length > 0 {
            assert(path.take(length - 1) =~= path.drop_last());
        }
    } else {
        lemma_has_prefix(node, path.drop_last(), length);
        assert(path.drop_last().take(length) =~= path.take(length));
        if length > 0 {
            assert(path.drop_last().take(length - 1) =~= path.take(length - 1));
        }
    }
}

/// The total of a vertex within its bounds, with one more value, still fits
/// in 64 bits: folding never wraps around. At the visit limit a fold leaves
/// the statistics as they are.
pub proof fn lemma_fold_within_limits<S: State>(node: NodeView<S>, value: i32)
    requires
        node.bounded(),
    ensures
        i64::MIN <= node.total + value <= i64::MAX,
        node.fold(value).bounded(),
        node.visits == visit_limit() ==> node.fold(value) == node,
        node.visits < visit_limit() ==> node.fold(value).visits == node.visits + 1
            && node.fold(value).total == node.total + value,
{
    let n = node.visits as int;
    let lo = i32::MIN as int;
    let hi = i32::MAX as int;
    assert(n * lo >= -0xffff_ffff * 0x8000_0000) by (nonlinear_arith)
        requires
            0 <= n <= 0xffff_ffff,
            lo == -0x8000_0000,
    ;
    assert(n * hi <= 0xffff_ffff * 0x7fff_ffff) by (nonlinear_arith)
        requires
            0 <= n <= 0xffff_ffff,
            hi == 0x7fff_ffff,
    ;
    assert((n + 1) * lo == n * lo + lo) by (nonlinear_arith);
    assert((n + 1) * hi == n * hi + hi) by (nonlinear_arith);
}

/// A fresh vertex is well-formed.
pub proof fn lemma_leaf_wf<S: State>(state: S, action: Option<S::Action>)
    ensures
        NodeView::leaf(state, action).wf(),
{
}

/// Expanding a well-formed vertex that has no children yet keeps it
/// well-formed.
pub proof fn lemma_expand_wf<S: State>(node: NodeView<S>)
    requires
        node.wf(),
        !node.expanded,
    ensures
        node.expand().wf(),
{
    let made = node.expand();
    assert forall|i: int| 0 <= i < made.children.len() implies (#[trigger] made.children[i]).wf() by {
        lemma_leaf_wf(successor_of(node.state, actions_of(node.state)[i]), Some(actions_of(node.state)[i]));
    }
}

/// Folding a value into a well-formed vertex keeps it well-formed.
pub proof fn lemma_fold_wf<S: State>(node: NodeView<S>, value: i32)
    requires
        node.wf(),
    ensures
        node.fold(value).wf(),
{
    let n = node.visits as int;
    let lo = i32::MIN as int;
    let hi = i32::MAX as int;
    assert((n + 1) * lo == n * lo + lo) by (nonlinear_arith);
    assert((n + 1) * hi == n * hi + hi) by (nonlinear_arith);
    let after = node.fold(value);
    assert forall|i: int| 0 <= i < after.children.len() implies (#[trigger] after.children[i]).wf() by {
        assert(node.children[i].wf());
    }
}

} // verus!
