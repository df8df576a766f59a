use vstd::prelude::*;
use crate::model::{
    bounds, computes, lemma_at_wf, lemma_child_reach, lemma_expand_wf, lemma_fold_wf,
    lemma_fold_within_limits, lemma_has_prefix, lemma_put_wf, lemma_quotient_bounded,
    lemma_step_along, priorities_among, total, NodeView,
};
use crate::select::{first_max, first_max_index};
use crate::state::{
    actions, actions_of, deterministic, successor, successor_of, value, value_of, lists, State,
};

verus! {

/// A vertex of the search tree. It owns its state, its statistics and its
/// children; nothing else refers to it.
pub struct Node<S: State> {
    state: S,
    action: Option<S::Action>,
    sum_evaluation: i64,
    num_visits: u32,
    children: Vec<Node<S>>,
    children_discovered: bool,
}

impl<S: State> View for Node<S> {
    type V = NodeView<S>;

    closed spec fn view(&self) -> NodeView<S>
        decreases self,
    {
        NodeView {
            state: self.state,
            action: self.action,
            total: self.sum_evaluation as int,
            visits: self.num_visits as nat,
            children: views(self.children@),
            expanded: self.children_discovered,
        }
    }
}

/// The views of `nodes`, in order.
spec fn views<S: State>(nodes: Seq<Node<S>>) -> Seq<NodeView<S>>
    decreases nodes,
{
    if nodes.len() == 0 {
        Seq::empty()
    } else {
        views(nodes.drop_last()).push(nodes.last().view())
    }
}

/// `views` keeps the length and takes the view of each entry.
proof fn lemma_views<S: State>(nodes: Seq<Node<S>>)
    ensures
        views(nodes).len() == nodes.len(),
        forall|i: int| 0 <= i < nodes.len() ==> views(nodes)[i] == (#[trigger] nodes[i])@,
    decreases nodes.len(),
{
    if nodes.len() > 0 {
        let front = nodes.drop_last();
        lemma_views(front);
        assert(views(nodes) == views(front).push(nodes.last().view()));
        assert forall|i: int| 0 <= i < nodes.len() implies views(nodes)[i] == (
        #[trigger] nodes[i])@ by {
            if i < front.len() {
                assert(front[i] == nodes[i]);
            }
        }
    }
}

/// The vertex where a descent ended, with the children in `grown`, if any,
/// as the outcome of its expansion.
spec fn sprouted<S: State>(
    frontier: NodeView<S>,
    grown: Option<Vec<Node<S>>>,
) -> NodeView<S> {
    match grown {
        Some(children) => frontier.grown(views(children@)),
        None => frontier,
    }
}

/// The position of the child, among `children` of a parent with
/// `parent_visits` visits, that `score_func` ranks highest: the first of
/// them where several share the greatest priority.
fn select_child<S: State, F>(children: &Vec<Node<S>>, parent_visits: u32, score_func: &F) -> (best:
    usize) where F: Fn(Option<i32>, u32, u32) -> i64
    requires
        children@.len() > 0,
        forall|j: int| 0 <= j < children@.len() ==> (#[trigger] children@[j])@.wf(),
        total(*score_func),
    ensures
        best < children@.len(),
        forall|policy: spec_fn(Option<i32>, u32, u32) -> i64| #[trigger]
            computes(*score_func, policy) ==> best as int == first_max_index(
                priorities_among(views(children@), parent_visits as nat, policy),
            ),
{
    let mut scores: Vec<i64> = Vec::new();
    let mut i: usize = 0;
    proof {
        lemma_views(children@);
    }
    while i < children.len()
        invariant
            i <= children@.len(),
            total(*score_func),
            forall|j: int| 0 <= j < children@.len() ==> (#[trigger] children@[j])@.wf(),
            views(children@).len() == children@.len(),
            forall|j: int|
                0 <= j < children@.len() ==> views(children@)[j] == (#[trigger] children@[j])@,
            scores@.len() == i,
            forall|j: int|
                0 <= j < i ==> call_ensures(
                    *score_func,
                    (
                        views(children@)[j].average(),
                        views(children@)[j].visits as u32,
                        parent_visits,
                    ),
                    #[trigger] scores@[j],
                ),
        decreases children@.len() - i,
    {
        let average = children[i].evaluation();
        let score = score_func(average, children[i].num_visits, parent_visits);
        scores.push(score);
        i += 1;
    }
    let best = first_max(&scores);
    proof {
        assert forall|policy: spec_fn(Option<i32>, u32, u32) -> i64| #[trigger]
            computes(*score_func, policy) implies scores@ == priorities_among(
            views(children@),
            parent_visits as nat,
            policy,
        ) by {
            assert(scores@ =~= priorities_among(views(children@), parent_visits as nat, policy));
        }
    }
    best.unwrap()
}

impl<S: State> Node<S> {
    /// A vertex for `state`, reached by `action`, that was neither visited nor
    /// expanded.
    pub fn new(state: S, action: Option<S::Action>) -> (node: Self)
        ensures
            node@ == NodeView::leaf(state, action),
            node@.wf(),
    {
        let node = Node {
            state,
            action,
            sum_evaluation: 0,
            num_visits: 0,
            children: Vec::new(),
            children_discovered: false,
        };
        proof {
            lemma_views(node.children@);
            assert(node@.children =~= Seq::empty());
        }
        node
    }

    /// An unexpanded vertex that starts from recorded statistics: `num_visits`
    /// visits whose values sum to `sum_evaluation`. Nothing where no
    /// `num_visits` values have that sum.
    pub fn with_statistics(
        state: S,
        action: Option<S::Action>,
        sum_evaluation: i64,
        num_visits: u32,
    ) -> (node: Option<Self>)
        ensures
            node.is_some() <==> bounds(num_visits as nat, sum_evaluation as int),
            node.is_some() ==> node.unwrap()@ == (NodeView {
                total: sum_evaluation as int,
                visits: num_visits as nat,
                ..NodeView::leaf(state, action)
            }),
            node.is_some() ==> node.unwrap()@.wf(),
    {
        let visits = num_visits as i64;
        proof {
            assert(visits * (i32::MIN as int) >= -0xffff_ffff * 0x8000_0000) by (nonlinear_arith)
                requires
                    0 <= visits <= 0xffff_ffff,
            ;
            assert(visits * (i32::MAX as int) <= 0xffff_ffff * 0x7fff_ffff) by (nonlinear_arith)
                requires
                    0 <= visits <= 0xffff_ffff,
            ;
        }
        if visits * (i32::MIN as i64) <= sum_evaluation && sum_evaluation <= visits * (
        i32::MAX as i64) {
            let node = Node {
                state,
                action,
                sum_evaluation,
                num_visits,
                children: Vec::new(),
                children_discovered: false,
            };
            proof {
                lemma_views(node.children@);
                assert(node@.children =~= Seq::empty());
            }
            Some(node)
        } else {
            None
        }
    }

    /// The running average of the values folded into this vertex, rounded
    /// toward zero; nothing while it has no visit.
    pub fn evaluation(&self) -> (average: Option<i32>)
        requires
            self@.wf(),
        ensures
            average == self@.average(),
    {
        proof {
            if self.num_visits > 0 {
                lemma_quotient_bounded(self.sum_evaluation as int, self.num_visits as int);
            }
        }
        match self.sum_evaluation.checked_div(self.num_visits as i64) {
            Some(q) => Some(q as i32),
            None => None,
        }
    }

    /// Folds `score` into the statistics: one more visit, and `score` added to
    /// the total. A vertex at the visit limit stays as it is.
    pub fn add_visit(&mut self, score: i32)
        requires
            old(self)@.wf(),
        ensures
            final(self)@ == old(self)@.fold(score),
            final(self)@.wf(),
    {
        if self.num_visits < u32::MAX {
            proof {
                lemma_fold_within_limits(self@, score);
            }
            self.sum_evaluation = self.sum_evaluation + score as i64;
            self.num_visits = self.num_visits + 1;
        }
        proof {
            assert(self.children@ == old(self).children@);
            assert(self@ == old(self)@.fold(score));
            lemma_fold_wf(old(self)@, score);
        }
    }

    /// Makes the children, one for each legal action of this vertex's state
    /// and in their order, unless they were made before: a vertex is expanded
    /// once, and a second call changes nothing.
    pub fn discover_children(&mut self)
        requires
            deterministic::<S>(),
            old(self)@.wf(),
        ensures
            final(self)@ == old(self)@.expanded_once(),
            final(self)@.wf(),
    {
        if self.children_discovered {
            return ;
        }
        let children = self.grow();
        self.children = children;
        self.children_discovered = true;
        proof {
            assert(self@ == old(self)@.expand());
            lemma_expand_wf(old(self)@);
        }
    }

    /// The action of the child with the greatest running average, the first
    /// of them where several share it. A child without visits ranks below
    /// every visited one. Nothing where there is no child.
    pub fn get_best_action(&self) -> (best: Option<S::Action>)
        requires
            self@.wf(),
        ensures
            best == self@.best_action(),
            best.is_some() <==> self@.children.len() > 0,
            best.is_some() ==> actions_of(self@.state).contains(best.unwrap()),
    {
        let mut ranks: Vec<i64> = Vec::new();
        let mut i: usize = 0;
        proof {
            lemma_views(self.children@);
        }
        while i < self.children.len()
            invariant
                i <= self.children@.len(),
                self@.wf(),
                self@.children.len() == self.children@.len(),
                forall|j: int|
                    0 <= j < self.children@.len() ==> self@.children[j] == (
                    #[trigger] self.children@[j])@,
                ranks@.len() == i,
                forall|j: int| 0 <= j < i ==> #[trigger] ranks@[j] == self@.children[j].rank(),
            decreases self.children@.len() - i,
        {
            assert(self@.children[i as int].wf());
            let rank: i64 = match self.children[i].evaluation() {
                Some(average) => average as i64,
                None => i32::MIN as i64 - 1,
            };
            ranks.push(rank);
            i += 1;
        }
        assert(ranks@ =~= self@.ranks());
        match first_max(&ranks) {
            Some(k) => {
                assert(self@.children[k as int].action == Some(actions_of(self@.state)[k as int]));
                self.children[k].action
            },
            None => None,
        }
    }

    /// Fresh children for this vertex: one for each legal action of its
    /// state, in their order.
    fn grow(&self) -> (children: Vec<Node<S>>)
        requires
            deterministic::<S>(),
        ensures
            views(children@) == self@.expand().children,
    {
        let listed = actions(&self.state);
        let mut children: Vec<Node<S>> = Vec::new();
        let mut i: usize = 0;
        while i < listed.len()
            invariant
                i <= listed.len(),
                deterministic::<S>(),
                listed@ == actions_of(self.state),
                lists(self.state, listed@),
                children@.len() == i,
                forall|j: int|
                    0 <= j < i ==> (#[trigger] children@[j])@ == NodeView::leaf(
                        successor_of(self.state, listed@[j]),
                        Some(listed@[j]),
                    ),
            decreases listed.len() - i,
        {
            let next = successor(&self.state, &listed, i);
            children.push(Node::new(next, Some(listed[i])));
            i += 1;
        }
        proof {
            lemma_views(children@);
            let made = self@.expand().children;
            assert forall|j: int| 0 <= j < made.len() implies views(children@)[j] == made[j] by {
                assert(views(children@)[j] == children@[j]@);
            }
            assert(views(children@) =~= made);
        }
        children
    }

    /// The read-only half of an iteration: the way down from this vertex to
    /// the vertex where the descent ends, the children that this vertex gets
    /// if it is expanded now, and the value to fold back.
    fn scout<F>(&self, score_func: &F) -> (found: (Vec<usize>, Option<Vec<Node<S>>>, i32)) where
        F: Fn(Option<i32>, u32, u32) -> i64,

        requires
            deterministic::<S>(),
            self@.wf(),
            total(*score_func),
        ensures
            self@.has(found.0@),
            sprouted(self@.at(found.0@), found.1).wf(),
            sprouted(self@.at(found.0@), found.1).fold(found.2).holds_fold_of(
                self@.at(found.0@),
                found.2,
            ),
            forall|policy: spec_fn(Option<i32>, u32, u32) -> i64| #[trigger]
                computes(*score_func, policy) ==> self@.descends(policy, found.0@) && self@.at(
                    found.0@,
                ).step(policy) == (sprouted(self@.at(found.0@), found.1).fold(found.2), found.2),
    {
        let mut path: Vec<usize> = Vec::new();
        let mut cur: &Node<S> = self;
        while cur.children.len() > 0
            invariant
                deterministic::<S>(),
                total(*score_func),
                self@.wf(),
                self@.has(path@),
                cur@ == self@.at(path@),
                cur@.wf(),
                forall|policy: spec_fn(Option<i32>, u32, u32) -> i64| #[trigger]
                    computes(*score_func, policy) ==> self@.descends(policy, path@),
            decreases cur@.reach(),
        {
            let ghost above = path@;
            proof {
                lemma_views(cur.children@);
                assert forall|j: int| 0 <= j < cur.children@.len() implies (
                #[trigger] cur.children@[j])@.wf() by {
                    assert(cur@.children[j].wf());
                }
            }
            let k = select_child(&cur.children, cur.num_visits, score_func);
            path.push(k);
            proof {
                lemma_child_reach(cur@, k as int);
                assert(path@.drop_last() =~= above);
                assert(cur@.children[k as int].wf());
            }
            cur = &cur.children[k];
        }
        proof {
            lemma_views(cur.children@);
        }
        if cur.children_discovered || cur.num_visits == 0 {
            let value = value(&cur.state);
            proof {
                lemma_fold_wf(cur@, value);
            }
            (path, None, value)
        } else {
            let mut kids = cur.grow();
            let ghost made = cur@.expand();
            proof {
                lemma_expand_wf(cur@);
                lemma_views(kids@);
            }
            if kids.len() == 0 {
                let value = value(&cur.state);
                proof {
                    assert(sprouted(cur@, Some(kids)) == made);
                }
                (path, Some(kids), value)
            } else {
                proof {
                    assert forall|j: int| 0 <= j < kids@.len() implies (#[trigger] kids@[j])@.wf() by {
                        assert(made.children[j].wf());
                    }
                }
                let k = select_child(&kids, cur.num_visits, score_func);
                let ghost fresh = kids@;
                assert(fresh[k as int]@ == made.children[k as int]);
                let value = kids[k].rollout();
                proof {
                    lemma_views(kids@);
                    lemma_views(fresh);
                    let child = kids@[k as int]@;
                    assert(kids@ =~= fresh.update(k as int, kids@[k as int]));
                    assert forall|j: int| 0 <= j < kids@.len() implies views(kids@)[j]
                        == made.children.update(k as int, child)[j] by {
                        assert(views(kids@)[j] == kids@[j]@);
                        if j != k {
                            assert(made.children[j] == fresh[j]@);
                        }
                    }
                    assert(views(kids@) =~= made.children.update(k as int, child));
                    let after = made.with_child(k as int, child);
                    assert(sprouted(cur@, Some(kids)) == after);
                    assert forall|j: int| 0 <= j < after.children.len() implies (
                    #[trigger] after.children[j]).wf() by {
                        if j != k {
                            assert(made.children[j].wf());
                        }
                    }
                    assert(after.wf());
                    assert forall|policy: spec_fn(Option<i32>, u32, u32) -> i64| #[trigger]
                        computes(*score_func, policy) implies cur@.step(policy) == (
                        after.fold(value),
                        value,
                    ) by {
                        assert(made.priorities(policy) == priorities_among(
                            views(fresh),
                            cur.num_visits as nat,
                            policy,
                        ));
                        assert(k as int == made.selected(policy));
                        let leaf = made.children[k as int];
                        assert(leaf.step(policy) == leaf.rollout());
                        assert(made.descend(policy) == (after.fold(value), value));
                        assert(cur@.step(policy) == made.descend(policy));
                    }
                }
                (path, Some(kids), value)
            }
        }
    }

    /// The writing half of an iteration: folds `value` into every vertex on
    /// `path`, and gives the vertex at its end the children in `grown`, if
    /// any.
    fn fold_back(&mut self, path: &Vec<usize>, grown: Option<Vec<Node<S>>>, value: i32)
        requires
            old(self)@.wf(),
            old(self)@.has(path@),
            sprouted(old(self)@.at(path@), grown).wf(),
        ensures
            final(self)@ == old(self)@.put(
                path@,
                sprouted(old(self)@.at(path@), grown).fold(value),
                value,
            ),
    {
        let ghost start = self@;
        let mut cur = &mut *self;
        let mut depth: usize = 0;
        while depth < path.len()
            invariant
                depth <= path.len(),
                start.wf(),
                start.has(path@),
                cur@ == start.at(path@.take(depth as int)),
                after_borrow(*self)@ == start.put(path@.take(depth as int), final(cur)@, value),
            decreases path.len() - depth,
        {
            let k = path[depth];
            let ghost above = path@.take(depth as int);
            let ghost taken = path@.take(depth + 1);
            proof {
                assert(taken.drop_last() =~= above);
                assert(taken.last() == k);
                lemma_has_prefix(start, path@, depth + 1);
                lemma_at_wf(start, above);
                lemma_views(cur.children@);
            }
            let ghost here = cur@;
            let ghost end = *final(cur);
            cur.add_visit(value);
            let ghost folded = *cur;
            proof {
                lemma_views(cur.children@);
            }
            cur = &mut cur.children[k];
            proof {
                let below = *final(cur);
                assert(end.children@ =~= folded.children@.update(k as int, below));
                lemma_views(end.children@);
                lemma_views(folded.children@);
                assert forall|j: int| 0 <= j < end@.children.len() implies end@.children[j]
                    == folded@.children.update(k as int, below@)[j] by {
                    assert(end@.children[j] == end.children@[j]@);
                    if j != k {
                        assert(folded@.children[j] == folded.children@[j]@);
                    }
                }
                assert(end@.children =~= folded@.children.update(k as int, below@));
                assert(end@ == here.with_child(k as int, below@).fold(value));
            }
            depth += 1;
        }
        proof {
            assert(path@.take(depth as int) =~= path@);
        }
        match grown {
            Some(kids) => {
                cur.children = kids;
                cur.children_discovered = true;
            },
            None => {},
        }
        assert(cur@ == sprouted(start.at(path@), grown));
        cur.add_visit(value);
    }

    /// One iteration from this vertex: descends by `score_func` through the
    /// vertices that have children, expands a visited vertex that has none
    /// yet, rolls out where the descent ends, and folds the value into every
    /// vertex on the way. Returns that value.
    ///
    /// The descent is a loop: however deep the tree, the call stack does not
    /// grow with it.
    pub fn mcts<F>(&mut self, score_func: &F) -> (value: i32) where
        F: Fn(Option<i32>, u32, u32) -> i64,

        requires
            deterministic::<S>(),
            old(self)@.wf(),
            total(*score_func),
        ensures
            final(self)@.wf(),
            final(self)@.holds_fold_of(old(self)@, value),
            forall|policy: spec_fn(Option<i32>, u32, u32) -> i64| #[trigger]
                computes(*score_func, policy) ==> (final(self)@, value) == old(self)@.step(
                    policy,
                ),
    {
        let (path, grown, value) = self.scout(score_func);
        let ghost below = sprouted(self@.at(path@), grown).fold(value);
        proof {
            lemma_fold_wf(sprouted(self@.at(path@), grown), value);
            lemma_put_wf(self@, path@, below, value);
        }
        self.fold_back(&path, grown, value);
        proof {
            assert forall|policy: spec_fn(Option<i32>, u32, u32) -> i64| #[trigger]
                computes(*score_func, policy) implies (self@, value) == old(self)@.step(
                policy,
            ) by {
                lemma_step_along(old(self)@, policy, path@);
            }
        }
        value
    }

    /// Descends into the child that `score_func` ranks highest, the first of
    /// them where several share the greatest priority, and folds the value
    /// that comes back into this vertex. Without children it rolls out here.
    pub fn backprop_with_best<F>(&mut self, score_func: &F) -> (value: i32) where
        F: Fn(Option<i32>, u32, u32) -> i64,

        requires
            deterministic::<S>(),
            old(self)@.wf(),
            total(*score_func),
        ensures
            final(self)@.wf(),
            final(self)@.holds_fold_of(old(self)@, value),
            forall|policy: spec_fn(Option<i32>, u32, u32) -> i64| #[trigger]
                computes(*score_func, policy) ==> (final(self)@, value) == old(self)@.descend(
                    policy,
                ),
    {
        if self.children.len() == 0 {
            proof {
                lemma_views(self.children@);
            }
            return self.rollout();
        }
        proof {
            lemma_views(self.children@);
            assert forall|j: int| 0 <= j < self.children@.len() implies (
            #[trigger] self.children@[j])@.wf() by {
                assert(self@.children[j].wf());
            }
        }
        let k = select_child(&self.children, self.num_visits, score_func);
        assert(self@.children[k as int].wf());
        let value = self.children[k].mcts(score_func);
        proof {
            lemma_views(self.children@);
            lemma_views(old(self).children@);
            let before = old(self)@;
            let child = self.children@[k as int]@;
            assert(self.children@ =~= old(self).children@.update(
                k as int,
                self.children@[k as int],
            ));
            assert forall|j: int| 0 <= j < self@.children.len() implies self@.children[j]
                == before.children.update(k as int, child)[j] by {
                assert(self@.children[j] == self.children@[j]@);
                if j != k {
                    assert(before.children[j] == old(self).children@[j]@);
                }
            }
            assert(self@.children =~= before.children.update(k as int, child));
            assert(self@ == before.with_child(k as int, child));
            assert forall|j: int| 0 <= j < self@.children.len() implies (
            #[trigger] self@.children[j]).wf() by {
                assert(before.children[j].wf());
            }
            assert(self@.wf());
        }
        self.add_visit(value);
        value
    }

    /// Puts the `index`-th child in this vertex's place, as a root: the
    /// child keeps its subtree and statistics and loses its action; its
    /// siblings are dropped. Without such a child nothing changes.
    pub fn reroot(&mut self, index: usize) -> (moved: bool)
        requires
            old(self)@.wf(),
        ensures
            moved <==> index < old(self)@.children.len(),
            moved ==> final(self)@ == old(self)@.rerooted(index as int),
            !moved ==> final(self)@ == old(self)@,
            final(self)@.wf(),
    {
        proof {
            lemma_views(self.children@);
        }
        if index >= self.children.len() {
            return false;
        }
        let mut child = self.children.swap_remove(index);
        assert(child@ == old(self)@.children[index as int]);
        child.action = None;
        proof {
            let was = old(self)@.children[index as int];
            assert(was.wf());
            assert forall|j: int| 0 <= j < child@.children.len() implies (
            #[trigger] child@.children[j]).wf() by {
                assert(was.children[j].wf());
            }
        }
        *self = child;
        true
    }

    /// Evaluates this vertex's own state and folds the value in.
    pub fn rollout(&mut self) -> (value: i32)
        requires
            deterministic::<S>(),
            old(self)@.wf(),
        ensures
            value == value_of(old(self)@.state),
            final(self)@ == old(self)@.fold(value),
            final(self)@.wf(),
    {
        let value = value(&self.state);
        self.add_visit(value);
        value
    }

    /// The state that this vertex stands for.
    pub fn state(&self) -> (state: &S)
        ensures
            *state == self@.state,
    {
        &self.state
    }

    /// The action that led to this vertex; a root has none.
    pub fn action(&self) -> (action: Option<S::Action>)
        ensures
            action == self@.action,
    {
        self.action
    }

    /// How many values were folded into this vertex.
    pub fn num_visits(&self) -> (visits: u32)
        ensures
            visits == self@.visits,
    {
        self.num_visits
    }

    /// The sum of the values folded into this vertex.
    pub fn sum_evaluation(&self) -> (sum: i64)
        ensures
            sum == self@.total,
    {
        self.sum_evaluation
    }

    /// Whether the children of this vertex were already made.
    pub fn is_expanded(&self) -> (expanded: bool)
        ensures
            expanded == self@.expanded,
    {
        self.children_discovered
    }

    /// How many children this vertex has.
    pub fn num_children(&self) -> (count: usize)
        ensures
            count == self@.children.len(),
    {
        proof {
            lemma_views(self.children@);
        }
        self.children.len()
    }

    /// The `index`-th child.
    pub fn child(&self, index: usize) -> (child: &Node<S>)
        requires
            index < self@.children.len(),
        ensures
            child@ == self@.children[index as int],
    {
        proof {
            lemma_views(self.children@);
        }
        &self.children[index]
    }
}

} // verus!
