//! The scores of a finished game: every move is measured against a reference solver.
//!
//! The game is known by four functions: `forget` drops what has been executed, `clear` drops the
//! cultivated resources, `reference` gives the depth of the reference solution of a state, and
//! `depth` the depth of a state itself.

use crate::environment::Environment;
use crate::evaluator::state_after;
use crate::node::NodeId;
use crate::observation::Action;
use crate::scalar::{filled, one, Scalar};
use crate::selfplay::{
    needs_clearing, score_transitions, spec_needs_clearing, spec_score_transitions, Transition,
};
use vstd::prelude::*;

verus! {

/// Whether a measure may give a value for a state.
pub open spec fn measures<E: Environment, R: Scalar, S: Fn(&E) -> R>(
    measure: &S,
    state: NodeId,
    value: R,
) -> bool {
    exists|e: &E| #[trigger] call_ensures(measure, (e,), value) && e.spec_hash() == state
}

/// Whether a change may lead from one state to another.
pub open spec fn leads<E: Environment, F: Fn(E) -> E>(
    change: &F,
    from: NodeId,
    to: NodeId,
) -> bool {
    exists|a: E, b: E| #[trigger]
        call_ensures(change, (a,), b) && a.spec_hash() == from && b.spec_hash() == to
}

/// Whether a value may be the depth of the reference solution of a state, which is cleared before
/// where the solver could not move.
pub open spec fn is_reference<
    E: Environment<Act = Action>,
    R: Scalar,
    C: Fn(E) -> E,
    S: Fn(&E) -> R,
>(num_ancillas: usize, clear: &C, reference: &S, state: NodeId, value: R) -> bool {
    if spec_needs_clearing(E::spec_actions(state), num_ancillas) {
        exists|cleared: NodeId| #[trigger]
            leads::<E, C>(clear, state, cleared) && measures::<E, R, S>(reference, cleared, value)
    } else {
        measures::<E, R, S>(reference, state, value)
    }
}

/// Whether a transition is that of the first of some remaining actions, taken in a state in which
/// what was executed is forgotten.
pub open spec fn is_transition<
    E: Environment<Act = Action>,
    R: Scalar,
    C: Fn(E) -> E,
    S: Fn(&E) -> R,
    D: Fn(&E) -> R,
>(
    num_ancillas: usize,
    clear: &C,
    reference: &S,
    depth: &D,
    state: NodeId,
    rest: Seq<Action>,
    t: Transition<R>,
) -> bool {
    &&& is_reference::<E, R, C, S>(num_ancillas, clear, reference, state, t.reference_depth)
    &&& measures::<E, R, D>(depth, state_after::<E>(state, rest), t.agent_depth)
    &&& t.finishes == E::spec_done(E::spec_next(state, rest[0]))
}

/// Whether the transition at `i` is that of the action at `i`. `states` holds the states before
/// each action, with what was executed forgotten.
pub open spec fn is_transition_at<
    E: Environment<Act = Action>,
    R: Scalar,
    F: Fn(E) -> E,
    C: Fn(E) -> E,
    S: Fn(&E) -> R,
    D: Fn(&E) -> R,
>(
    num_ancillas: usize,
    forget: &F,
    clear: &C,
    reference: &S,
    depth: &D,
    start: NodeId,
    actions: Seq<Action>,
    states: Seq<NodeId>,
    transitions: Seq<Transition<R>>,
    i: int,
) -> bool {
    let reached = if i == 0 {
        start
    } else {
        E::spec_next(states[i - 1], actions[i - 1])
    };
    &&& leads::<E, F>(forget, reached, states[i])
    &&& is_transition::<E, R, C, S, D>(
        num_ancillas,
        clear,
        reference,
        depth,
        states[i],
        actions.skip(i),
        transitions[i],
    )
}

/// Whether transitions are those of the first actions of a game.
pub open spec fn are_transitions<
    E: Environment<Act = Action>,
    R: Scalar,
    F: Fn(E) -> E,
    C: Fn(E) -> E,
    S: Fn(&E) -> R,
    D: Fn(&E) -> R,
>(
    num_ancillas: usize,
    forget: &F,
    clear: &C,
    reference: &S,
    depth: &D,
    start: NodeId,
    actions: Seq<Action>,
    states: Seq<NodeId>,
    transitions: Seq<Transition<R>>,
) -> bool {
    &&& states.len() == transitions.len()
    &&& forall|i: int|
        0 <= i < transitions.len() ==> #[trigger] is_transition_at::<E, R, F, C, S, D>(
            num_ancillas,
            forget,
            clear,
            reference,
            depth,
            start,
            actions,
            states,
            transitions,
            i,
        )
}

/// The depth of a game at the end of some actions.
fn followed_depth<E: Environment<Act = Action>, R: Scalar, D: Fn(&E) -> R>(
    env: &E,
    actions: &Vec<Action>,
    from: usize,
    depth: &D,
) -> (r: R)
    requires
        from <= actions@.len(),
        forall|e: &E| call_requires(depth, (e,)),
    ensures
        measures::<E, R, D>(
            depth,
            state_after::<E>(env.spec_hash(), actions@.skip(from as int)),
            r,
        ),
{
    let mut game: E = env.clone();
    proof {
        E::clone_law(*env, game);
    }
    let ghost rest = actions@.skip(from as int);
    let mut i: usize = from;
    assert(rest.take(0) =~= Seq::empty());
    while i < actions.len()
        invariant
            from <= i <= actions@.len(),
            rest == actions@.skip(from as int),
            game.spec_hash() == state_after::<E>(env.spec_hash(), rest.take(i - from)),
        decreases actions@.len() - i,
    {
        game.step(actions[i]);
        i += 1;
        assert(rest.take(i - from).drop_last() =~= rest.take(i - from - 1));
    }
    assert(rest.take(i - from) =~= rest);
    let r: R = depth(&game);
    assert(call_ensures(depth, (&game,), r));
    r
}

/// The transitions of a game.
pub fn transitions<
    E: Environment<Act = Action>,
    R: Scalar,
    F: Fn(E) -> E,
    C: Fn(E) -> E,
    S: Fn(&E) -> R,
    D: Fn(&E) -> R,
>(
    env: E,
    actions: &Vec<Action>,
    num_ancillas: usize,
    forget: &F,
    clear: &C,
    reference: &S,
    depth: &D,
) -> (r: Vec<Transition<R>>)
    requires
        forall|e: E| call_requires(forget, (e,)),
        forall|e: E| call_requires(clear, (e,)),
        forall|e: &E| call_requires(reference, (e,)),
        forall|e: &E| call_requires(depth, (e,)),
    ensures
        r@.len() == actions@.len(),
        exists|states: Seq<NodeId>| #[trigger]
            are_transitions::<E, R, F, C, S, D>(
                num_ancillas,
                forget,
                clear,
                reference,
                depth,
                env.spec_hash(),
                actions@,
                states,
                r@,
            ),
{
    let ghost start = env.spec_hash();
    let ghost mut states: Seq<NodeId> = Seq::empty();
    let mut now: E = env;
    let mut out: Vec<Transition<R>> = Vec::with_capacity(actions.len());
    let mut i: usize = 0;
    while i < actions.len()
        invariant
            i <= actions@.len(),
            out@.len() == i,
            states.len() == i,
            forall|e: E| call_requires(forget, (e,)),
            forall|e: E| call_requires(clear, (e,)),
            forall|e: &E| call_requires(reference, (e,)),
            forall|e: &E| call_requires(depth, (e,)),
            now.spec_hash() == (if i == 0 {
                start
            } else {
                E::spec_next(states[i - 1], actions@[i - 1])
            }),
            are_transitions::<E, R, F, C, S, D>(
                num_ancillas,
                forget,
                clear,
                reference,
                depth,
                start,
                actions@,
                states,
                out@,
            ),
        decreases actions@.len() - i,
    {
        let ghost reached = now.spec_hash();
        let ghost before = now;
        now = forget(now);
        let ghost here = now.spec_hash();
        assert(leads::<E, F>(forget, reached, here)) by {
            assert(call_ensures(forget, (before,), now));
        }
        let ids: Vec<Action> = now.valid_actions();
        let reference_depth: R = if needs_clearing(&ids, num_ancillas) {
            let copy: E = now.clone();
            proof {
                E::clone_law(now, copy);
            }
            let ghost kept = copy;
            let solvable: E = clear(copy);
            let d: R = reference(&solvable);
            assert(leads::<E, C>(clear, here, solvable.spec_hash())) by {
                assert(call_ensures(clear, (kept,), solvable));
            }
            assert(measures::<E, R, S>(reference, solvable.spec_hash(), d)) by {
                assert(call_ensures(reference, (&solvable,), d));
            }
            d
        } else {
            let d: R = reference(&now);
            assert(measures::<E, R, S>(reference, here, d)) by {
                assert(call_ensures(reference, (&now,), d));
            }
            d
        };
        let agent_depth: R = followed_depth(&now, actions, i, depth);
        now.step(actions[i]);
        let t: Transition<R> = Transition { reference_depth, agent_depth, finishes: now.done() };
        let ghost earlier = out@;
        let ghost earlier_states = states;
        out.push(t);
        proof {
            states = states.push(here);
            assert forall|k: int| 0 <= k < out@.len() implies #[trigger] is_transition_at::<
                E,
                R,
                F,
                C,
                S,
                D,
            >(num_ancillas, forget, clear, reference, depth, start, actions@, states, out@, k) by {
                if k < i {
                    assert(is_transition_at::<E, R, F, C, S, D>(
                        num_ancillas,
                        forget,
                        clear,
                        reference,
                        depth,
                        start,
                        actions@,
                        earlier_states,
                        earlier,
                        k,
                    ));
                }
            }
        }
        i += 1;
    }
    out
}

/// Whether scores are those of a game: 1 for all moves if the game is less deep than the reference
/// solution of its start, and else the scores of its transitions.
pub open spec fn is_scored<
    E: Environment<Act = Action>,
    R: Scalar,
    F: Fn(E) -> E,
    C: Fn(E) -> E,
    S: Fn(&E) -> R,
    D: Fn(&E) -> R,
>(
    num_ancillas: usize,
    forget: &F,
    clear: &C,
    reference: &S,
    depth: &D,
    start: NodeId,
    actions: Seq<Action>,
    reference_depth: R,
    agent_depth: R,
    scores: Seq<R>,
) -> bool {
    &&& measures::<E, R, S>(reference, start, reference_depth)
    &&& measures::<E, R, D>(depth, state_after::<E>(start, actions), agent_depth)
    &&& scores.len() == actions.len()
    &&& if R::spec_less(agent_depth, reference_depth) {
        forall|i: int| 0 <= i < scores.len() ==> #[trigger] scores[i] == one::<R>()
    } else {
        exists|states: Seq<NodeId>, ts: Seq<Transition<R>>|
            {
                &&& #[trigger] are_transitions::<E, R, F, C, S, D>(
                    num_ancillas,
                    forget,
                    clear,
                    reference,
                    depth,
                    start,
                    actions,
                    states,
                    ts,
                )
                &&& scores == spec_score_transitions(reference_depth, agent_depth, ts)
            }
    }
}

/// The score of every move of a game.
pub fn score_game<
    E: Environment<Act = Action>,
    R: Scalar,
    F: Fn(E) -> E,
    C: Fn(E) -> E,
    S: Fn(&E) -> R,
    D: Fn(&E) -> R,
>(
    env: E,
    actions: &Vec<Action>,
    num_ancillas: usize,
    forget: &F,
    clear: &C,
    reference: &S,
    depth: &D,
) -> (r: Vec<R>)
    requires
        forall|e: E| call_requires(forget, (e,)),
        forall|e: E| call_requires(clear, (e,)),
        forall|e: &E| call_requires(reference, (e,)),
        forall|e: &E| call_requires(depth, (e,)),
    ensures
        exists|reference_depth: R, agent_depth: R| #[trigger]
            is_scored::<E, R, F, C, S, D>(
                num_ancillas,
                forget,
                clear,
                reference,
                depth,
                env.spec_hash(),
                actions@,
                reference_depth,
                agent_depth,
                r@,
            ),
{
    let ghost start = env.spec_hash();
    let reference_depth: R = reference(&env);
    assert(measures::<E, R, S>(reference, start, reference_depth)) by {
        assert(call_ensures(reference, (&env,), reference_depth));
    }
    let agent_depth: R = followed_depth(&env, actions, 0, depth);
    assert(actions@.skip(0) =~= actions@);
    let scores: Vec<R> = if R::less(&agent_depth, &reference_depth) {
        filled(&R::decimal(1, 0), actions.len())
    } else {
        let ts: Vec<Transition<R>> = transitions(
            env,
            actions,
            num_ancillas,
            forget,
            clear,
            reference,
            depth,
        );
        score_transitions(&reference_depth, &agent_depth, &ts)
    };
    assert(is_scored::<E, R, F, C, S, D>(
        num_ancillas,
        forget,
        clear,
        reference,
        depth,
        start,
        actions@,
        reference_depth,
        agent_depth,
        scores@,
    ));
    scores
}

} // verus!
