//! Demonstrations by a reference solver: every action of a state is weighted by the depth of the
//! solution behind it.

use crate::environment::{is_seen, Environment};
use crate::evaluator::state_after;
use crate::node::NodeId;
use crate::observation::Observation;
use std::collections::HashMap;
use vstd::prelude::*;

verus! {

/// A worker that records demonstrations.
pub struct HeuristicGatherer {
    pub output_path: String,
}

/// The weight of an action: 10 if the solution behind it is shallower than that of the state, 5
/// if it is as deep, 1 if it is deeper.
pub open spec fn spec_rank_weight(depth: usize, base_line_depth: usize) -> usize {
    if depth < base_line_depth {
        10
    } else if depth == base_line_depth {
        5
    } else {
        1
    }
}

/// The weight of an action.
pub fn rank_weight(depth: usize, base_line_depth: usize) -> (r: usize)
    ensures
        r == spec_rank_weight(depth, base_line_depth),
{
    if depth < base_line_depth {
        10
    } else if depth == base_line_depth {
        5
    } else {
        1
    }
}

/// The weights of the first `k` actions; the last one counts for an action that occurs more than
/// once.
pub open spec fn spec_rankings(
    actions: Seq<usize>,
    depths: Seq<usize>,
    base_line_depth: usize,
    k: nat,
) -> Map<usize, usize>
    decreases k,
{
    if k == 0 {
        Map::empty()
    } else {
        spec_rankings(actions, depths, base_line_depth, (k - 1) as nat).insert(
            actions[k - 1],
            spec_rank_weight(depths[k - 1], base_line_depth),
        )
    }
}

/// A state of a reference solution: what is seen of it, its legal actions, and their weights.
pub struct RankedRow {
    pub obs: Observation,
    pub valid_actions: Vec<usize>,
    pub edge_visits: HashMap<usize, usize>,
}

/// Whether a solver may solve a state at a depth.
pub open spec fn is_depth<E: Environment<Act = usize>, G: Fn(&E) -> (Vec<usize>, usize)>(
    solve: &G,
    state: NodeId,
    depth: usize,
) -> bool {
    exists|e: &E, plan: Vec<usize>| #[trigger]
        call_ensures(solve, (e,), (plan, depth)) && e.spec_hash() == state
}

/// Whether weights are those of the legal actions of a state, by the depth of its solution and
/// the depths of those of the states that the actions lead to.
pub open spec fn are_ranks<E: Environment<Act = usize>, G: Fn(&E) -> (Vec<usize>, usize)>(
    solve: &G,
    state: NodeId,
    base: usize,
    depths: Seq<usize>,
    ranks: Map<usize, usize>,
) -> bool {
    let actions = E::spec_actions(state);
    &&& is_depth::<E, G>(solve, state, base)
    &&& depths.len() == actions.len()
    &&& forall|i: int|
        0 <= i < depths.len() ==> is_depth::<E, G>(
            solve,
            E::spec_next(state, actions[i]),
            #[trigger] depths[i],
        )
    &&& ranks == spec_rankings(actions, depths, base, actions.len())
}

/// Whether weights rank the legal actions of a state. A state that is done has none.
pub open spec fn is_ranked<E: Environment<Act = usize>, G: Fn(&E) -> (Vec<usize>, usize)>(
    solve: &G,
    state: NodeId,
    ranks: Map<usize, usize>,
) -> bool {
    if E::spec_done(state) {
        ranks == Map::<usize, usize>::empty()
    } else {
        exists|base: usize, depths: Seq<usize>| #[trigger]
            are_ranks::<E, G>(solve, state, base, depths, ranks)
    }
}

/// Whether a state is recorded with its legal actions ranked.
pub open spec fn is_row<
    E: Environment<Act = usize, Obs = Observation>,
    G: Fn(&E) -> (Vec<usize>, usize),
>(solve: &G, state: NodeId, row: RankedRow) -> bool {
    &&& is_seen::<E>(state, row.obs)
    &&& row.valid_actions@ == E::spec_actions(state)
    &&& is_ranked::<E, G>(solve, state, row.edge_visits@)
}

/// Whether the states along a plan are recorded.
pub open spec fn are_rows<
    E: Environment<Act = usize, Obs = Observation>,
    G: Fn(&E) -> (Vec<usize>, usize),
>(solve: &G, start: NodeId, plan: Seq<usize>, rows: Seq<RankedRow>) -> bool {
    &&& rows.len() == plan.len()
    &&& forall|i: int|
        0 <= i < rows.len() ==> is_row::<E, G>(
            solve,
            state_after::<E>(start, plan.take(i)),
            #[trigger] rows[i],
        )
}

impl HeuristicGatherer {
    /// A worker that records to a file.
    pub fn new(output_path: String) -> (r: Self)
        ensures
            r.output_path == output_path,
    {
        HeuristicGatherer { output_path }
    }

    /// The weight of each legal action, by the depth of the solution of the state that it leads
    /// to. A state that is done has none.
    pub fn ranked_actions(
        &self,
        done: bool,
        base_line_depth: usize,
        legal_actions: &[usize],
        depths: &[usize],
    ) -> (r: HashMap<usize, usize>)
        requires
            !done ==> depths@.len() == legal_actions@.len(),
        ensures
            r@ == (if done {
                Map::empty()
            } else {
                spec_rankings(
                    legal_actions@,
                    depths@,
                    base_line_depth,
                    legal_actions@.len(),
                )
            }),
    {
        broadcast use vstd::std_specs::hash::group_hash_axioms;

        let mut rankings: HashMap<usize, usize> = HashMap::new();
        assert(rankings@ =~= Map::<usize, usize>::empty());
        if done {
            return rankings;
        }
        let mut i: usize = 0;
        while i < legal_actions.len()
            invariant
                i <= legal_actions@.len(),
                depths@.len() == legal_actions@.len(),
                rankings@ == spec_rankings(legal_actions@, depths@, base_line_depth, i as nat),
            decreases legal_actions.len() - i,
        {
            rankings.insert(legal_actions[i], rank_weight(depths[i], base_line_depth));
            i += 1;
        }
        rankings
    }

    /// The weight of each legal action of a state: the state that it leads to is solved, and
    /// compared with the solution of the state itself. `solve` gives a plan and its depth.
    pub fn rank<E: Environment<Act = usize>, G: Fn(&E) -> (Vec<usize>, usize)>(
        &self,
        env: &E,
        solve: &G,
    ) -> (r: HashMap<usize, usize>)
        requires
            forall|e: &E| call_requires(solve, (e,)),
        ensures
            is_ranked::<E, G>(solve, env.spec_hash(), r@),
    {
        let ghost here = env.spec_hash();
        if env.done() {
            let none: HashMap<usize, usize> = HashMap::new();
            assert(none@ =~= Map::empty());
            return none;
        }
        let (base_plan, base_line_depth) = solve(env);
        assert(is_depth::<E, G>(solve, here, base_line_depth)) by {
            assert(call_ensures(solve, (env,), (base_plan, base_line_depth)));
        }
        let legal_actions: Vec<usize> = env.valid_actions();
        let mut depths: Vec<usize> = Vec::with_capacity(legal_actions.len());
        let mut i: usize = 0;
        while i < legal_actions.len()
            invariant
                i <= legal_actions@.len(),
                here == env.spec_hash(),
                legal_actions@ == E::spec_actions(here),
                depths@.len() == i,
                forall|e: &E| call_requires(solve, (e,)),
                forall|k: int|
                    0 <= k < i ==> is_depth::<E, G>(
                        solve,
                        E::spec_next(here, legal_actions@[k]),
                        #[trigger] depths@[k],
                    ),
            decreases legal_actions@.len() - i,
        {
            let mut game: E = env.clone();
            proof {
                E::clone_law(*env, game);
            }
            game.step(legal_actions[i]);
            let (plan, depth) = solve(&game);
            assert(is_depth::<E, G>(solve, E::spec_next(here, legal_actions@[i as int]), depth))
                by {
                assert(call_ensures(solve, (&game,), (plan, depth)));
            }
            depths.push(depth);
            i += 1;
        }
        let r: HashMap<usize, usize> = self.ranked_actions(
            false,
            base_line_depth,
            legal_actions.as_slice(),
            depths.as_slice(),
        );
        assert(are_ranks::<E, G>(solve, here, base_line_depth, depths@, r@));
        r
    }

    /// The states of the reference solution, each with its legal actions ranked.
    pub fn run<
        E: Environment<Act = usize, Obs = Observation>,
        G: Fn(&E) -> (Vec<usize>, usize),
    >(&self, env: E, solve: &G) -> (r: Vec<RankedRow>)
        requires
            forall|e: &E| call_requires(solve, (e,)),
        ensures
            exists|plan: Vec<usize>, depth: usize| #[trigger]
                call_ensures(solve, (&env,), (plan, depth)) && are_rows::<E, G>(
                    solve,
                    env.spec_hash(),
                    plan@,
                    r@,
                ),
    {
        let ghost start = env.spec_hash();
        let (plan, depth) = solve(&env);
        assert(call_ensures(solve, (&env,), (plan, depth)));
        let mut game: E = env;
        let mut rows: Vec<RankedRow> = Vec::with_capacity(plan.len());
        let mut i: usize = 0;
        assert(plan@.take(0) =~= Seq::empty());
        while i < plan.len()
            invariant
                i <= plan@.len(),
                rows@.len() == i,
                forall|e: &E| call_requires(solve, (e,)),
                game.spec_hash() == state_after::<E>(start, plan@.take(i as int)),
                forall|k: int|
                    0 <= k < i ==> is_row::<E, G>(
                        solve,
                        state_after::<E>(start, plan@.take(k)),
                        #[trigger] rows@[k],
                    ),
            decreases plan@.len() - i,
        {
            let row: RankedRow = RankedRow {
                obs: game.observation(),
                valid_actions: game.valid_actions(),
                edge_visits: self.rank(&game, solve),
            };
            assert(call_ensures(E::observation, (&game,), row.obs));
            assert(is_seen::<E>(game.spec_hash(), row.obs));
            rows.push(row);
            game.step(plan[i]);
            i += 1;
            assert(plan@.take(i as int).drop_last() =~= plan@.take(i - 1));
        }
        rows
    }
}

} // verus!
