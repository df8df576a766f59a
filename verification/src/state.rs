use vstd::prelude::*;

verus! {

/// A decision process, seen from one of its configurations.
///
/// The operations are pure: asked twice of equal configurations, each answers
/// the same. The search relies on that (see `deterministic`) and does not
/// test it.
pub trait State: Sized {
    /// One legal transition out of a configuration.
    type Action: Copy;

    /// Whether the process has ended in this configuration.
    fn is_terminal(&self) -> bool;

    /// The reward of this configuration.
    fn get_value(&self) -> i32;

    /// The legal actions of this configuration, in order; none where the
    /// process has ended.
    fn get_actions(&self) -> Vec<Self::Action>;

    /// The configuration that `action` leads to. Only an action that
    /// `get_actions` lists for this configuration may be applied.
    fn get_next_state(&self, action: &Self::Action) -> Self
        requires
            exists|listed: Vec<Self::Action>|
                call_ensures(Self::get_actions, (self,), listed) && listed@.contains(*action),
    ;
}

/// Whether `get_actions` can answer `listed` for `state`.
pub open spec fn lists<S: State>(state: S, listed: Seq<S::Action>) -> bool {
    exists|answer: Vec<S::Action>|
        call_ensures(S::get_actions, (&state,), answer) && answer@ == listed
}

/// The value that `get_value` gives for `state`.
pub open spec fn value_of<S: State>(state: S) -> i32 {
    choose|value: i32| call_ensures(S::get_value, (&state,), value)
}

/// The actions that `get_actions` lists for `state`, in order.
pub open spec fn actions_of<S: State>(state: S) -> Seq<S::Action> {
    choose|listed: Seq<S::Action>| lists(state, listed)
}

/// The state that `get_next_state` gives for `state` and `action`.
pub open spec fn successor_of<S: State>(state: S, action: S::Action) -> S {
    choose|next: S| call_ensures(S::get_next_state, (&state, &action), next)
}

/// Whether the operations of `S` are functions of their arguments: none of
/// them can answer two different things for the same state and action.
pub open spec fn deterministic<S: State>() -> bool {
    &&& forall|state: S, a: i32, b: i32|
        #![trigger call_ensures(S::get_value, (&state,), a), call_ensures(S::get_value, (&state,), b)]
        call_ensures(S::get_value, (&state,), a) && call_ensures(S::get_value, (&state,), b)
            ==> a == b
    &&& forall|state: S, a: Vec<S::Action>, b: Vec<S::Action>|
        #![trigger call_ensures(S::get_actions, (&state,), a), call_ensures(S::get_actions, (&state,), b)]
        call_ensures(S::get_actions, (&state,), a) && call_ensures(S::get_actions, (&state,), b)
            ==> a@ == b@
    &&& forall|state: S, action: S::Action, a: S, b: S|
        #![trigger call_ensures(S::get_next_state, (&state, &action), a), call_ensures(S::get_next_state, (&state, &action), b)]
        call_ensures(S::get_next_state, (&state, &action), a) && call_ensures(
            S::get_next_state,
            (&state, &action),
            b,
        ) ==> a == b
}

/// Evaluates `state`.
pub fn value<S: State>(state: &S) -> (value: i32)
    requires
        deterministic::<S>(),
    ensures
        value == value_of(*state),
{
    state.get_value()
}

/// Lists the legal actions of `state`.
pub fn actions<S: State>(state: &S) -> (listed: Vec<S::Action>)
    requires
        deterministic::<S>(),
    ensures
        listed@ == actions_of(*state),
        lists(*state, listed@),
{
    let listed = state.get_actions();
    proof {
        assert(lists(*state, listed@));
        let named = choose|answer: Vec<S::Action>|
            call_ensures(S::get_actions, (state,), answer) && answer@ == actions_of(*state);
        assert(call_ensures(S::get_actions, (state,), named));
    }
    listed
}

/// Applies the `index`-th of the actions that were listed for `state`.
pub fn successor<S: State>(state: &S, listed: &Vec<S::Action>, index: usize) -> (next: S)
    requires
        deterministic::<S>(),
        lists(*state, listed@),
        index < listed@.len(),
    ensures
        next == successor_of(*state, listed@[index as int]),
{
    proof {
        let answer = choose|answer: Vec<S::Action>|
            call_ensures(S::get_actions, (state,), answer) && answer@ == listed@;
        assert(answer@.contains(listed@[index as int]));
    }
    state.get_next_state(&listed[index])
}

} // verus!
