use vstd::prelude::*;
use crate::model::{capped, computes, total, NodeView};
use crate::node::Node;
use crate::state::{actions_of, deterministic, State};

verus! {

/// A search tree: the handle that owns the root vertex.
pub struct SearchTree<S: State> {
    root: Node<S>,
}

impl<S: State> View for SearchTree<S> {
    type V = NodeView<S>;

    closed spec fn view(&self) -> NodeView<S> {
        self.root@
    }
}

impl<S: State> SearchTree<S> {
    /// Whether the tree is well-formed and its root has no action.
    pub open spec fn wf(&self) -> bool {
        &&& self@.wf()
        &&& self@.action.is_none()
    }

    /// A tree whose root stands for `root_state`, unvisited and unexpanded.
    pub fn new(root_state: S) -> (tree: Self)
        ensures
            tree@ == NodeView::leaf(root_state, None),
            tree.wf(),
    {
        SearchTree { root: Node::new(root_state, None) }
    }

    /// The root vertex.
    pub fn root(&self) -> (root: &Node<S>)
        ensures
            root@ == self@,
    {
        &self.root
    }

    /// Runs one iteration from the root and returns the value that it folded
    /// back.
    pub fn iterate<F>(&mut self, score_func: &F) -> (value: i32) where
        F: Fn(Option<i32>, u32, u32) -> i64,

        requires
            deterministic::<S>(),
            old(self).wf(),
            total(*score_func),
        ensures
            final(self).wf(),
            final(self)@.holds_fold_of(old(self)@, value),
            forall|policy: spec_fn(Option<i32>, u32, u32) -> i64| #[trigger]
                computes(*score_func, policy) ==> (final(self)@, value) == old(self)@.step(
                    policy,
                ),
    {
        self.root.mcts(score_func)
    }

    /// Runs `iterations` iterations from the root, one after the other. The
    /// root counts each of them, up to the visit limit.
    pub fn search<F>(&mut self, score_func: &F, iterations: usize) where
        F: Fn(Option<i32>, u32, u32) -> i64,

        requires
            deterministic::<S>(),
            old(self).wf(),
            total(*score_func),
        ensures
            final(self).wf(),
            final(self)@.state == old(self)@.state,
            final(self)@.visits == capped(old(self)@.visits + iterations as nat),
            forall|policy: spec_fn(Option<i32>, u32, u32) -> i64| #[trigger]
                computes(*score_func, policy) ==> final(self)@ == old(self)@.after(
                    policy,
                    iterations as nat,
                ),
    {
        let mut done: usize = 0;
        while done < iterations
            invariant
                done <= iterations,
                self.wf(),
                deterministic::<S>(),
                total(*score_func),
                self@.state == old(self)@.state,
                self@.visits == capped(old(self)@.visits + done as nat),
                forall|policy: spec_fn(Option<i32>, u32, u32) -> i64| #[trigger]
                    computes(*score_func, policy) ==> self@ == old(self)@.after(
                        policy,
                        done as nat,
                    ),
            decreases iterations - done,
        {
            self.iterate(score_func);
            done += 1;
        }
    }

    /// The recommended action: that of the root's child with the greatest
    /// running average. Nothing where the root has no child.
    pub fn best_action(&self) -> (best: Option<S::Action>)
        requires
            self.wf(),
        ensures
            best == self@.best_action(),
            best.is_some() <==> self@.children.len() > 0,
            best.is_some() ==> actions_of(self@.state).contains(best.unwrap()),
    {
        self.root.get_best_action()
    }

    /// Moves the search on to the decision point that the root's `index`-th
    /// child stands for. That child becomes the root and keeps its subtree
    /// and statistics; its siblings are dropped. Without such a child the
    /// tree stays as it is.
    pub fn update(&mut self, index: usize) -> (advanced: bool)
        requires
            old(self).wf(),
        ensures
            advanced <==> index < old(self)@.children.len(),
            advanced ==> final(self)@ == old(self)@.rerooted(index as int),
            !advanced ==> final(self)@ == old(self)@,
            final(self).wf(),
    {
        self.root.reroot(index)
    }
}

} // verus!
