//! What travels between workers and agents: where packed observations hold what, and who gets
//! which answer.

use crate::agent::uniform_prior;
use crate::arena::{header_error, request_error, spec_needs_init, ArenaError};
use crate::client::{masked_prior, ones_prior};
use crate::comms::{actions_of, dense_prior, mask_of, pack_entry, positive_prior, unpack_entry};
use crate::core_agent::even_prior;
use crate::json_text::comma_list;
use crate::mocks::MockEnv;
use crate::observation::{Action, Observation, ObservationTuple, ObservationView};
use crate::par_graph::Environment;
use crate::runner::{after_event, are_paired, Incoming, InferenceResult};
use crate::scalar::{over, Scalar};
use crate::slot::{lone_prior, Slot};
use crate::text::digits;
use crate::tilers_obs::{TilersObs, TilersObsView};
use crate::tilers_slot::{
    batch_error, pack_obs, tall_board, unpack_obs, BatchError, TilersEntry, TilersSlot,
};
use std::collections::HashMap;
use vstd::prelude::*;
use vstd::std_specs::convert::FromSpec;

verus! {

/// Law: a packed request holds height, width and ancillas as bytes, the tokens of the placement and
/// of the objectives in their order with zeros behind them, how many objectives there are, at most
/// 800 of each, and a 1 for each valid action.
pub proof fn law_packed_request(o: ObservationView, j: int)
    requires
        o.height < 256,
        o.width < 256,
        o.num_ancillas < 256,
        o.placement.len() <= 400,
        0 <= j,
    ensures
        ({
            let e = pack_entry(o);
            let n0 = if o.objectives_0.len() < 800 {
                o.objectives_0.len()
            } else {
                800
            };
            let n1 = if o.objectives_1.len() < 800 {
                o.objectives_1.len()
            } else {
                800
            };
            &&& e.h == o.height
            &&& e.w == o.width
            &&& e.num_ancillas == o.num_ancillas
            &&& e.obj0_len == n0
            &&& e.obj1_len == n1
            &&& e.placement.len() == 400
            &&& e.obj0.len() == 800
            &&& e.obj1.len() == 800
            &&& e.action_mask.len() == 101
            &&& j < o.placement.len() ==> e.placement[j] == o.placement[j]
            &&& o.placement.len() <= j < 400 ==> e.placement[j] == 0
            &&& j < n0 ==> e.obj0[j] == o.objectives_0[j]
            &&& n0 <= j < 800 ==> e.obj0[j] == 0
            &&& j < n1 ==> e.obj1[j] == o.objectives_1[j]
            &&& n1 <= j < 800 ==> e.obj1[j] == 0
            &&& j < 101 && o.valid_actions.contains(j as Action) ==> e.action_mask[j] == 1
            &&& j < 101 && !o.valid_actions.contains(j as Action) ==> e.action_mask[j] == 0
        }),
{
    law_mask_marks_actions(o.valid_actions, 101, j);
}

/// Law: a mask has a 1 at each listed action and a 0 elsewhere.
pub proof fn law_mask_marks_actions(actions: Seq<Action>, width: nat, a: int)
    requires
        width <= 65536,
        0 <= a,
    ensures
        mask_of(actions, width).len() == width,
        a < width && actions.contains(a as Action) ==> mask_of(actions, width)[a] == 1,
        a < width && !actions.contains(a as Action) ==> mask_of(actions, width)[a] == 0,
{
    if a < width {
        if actions.contains(a as Action) {
            let k = choose|k: int| 0 <= k < actions.len() && actions[k] == a as Action;
            assert(actions[k] == a);
        } else if exists|k: int| 0 <= k < actions.len() && #[trigger] actions[k] == a {
            let k = choose|k: int| 0 <= k < actions.len() && #[trigger] actions[k] == a;
            assert(actions.contains(actions[k]));
        }
    }
}

/// Law: the actions of a mask are those at which it is not 0, in ascending order.
pub proof fn law_mask_lists_actions(mask: Seq<u8>, n: nat, a: Action)
    requires
        n <= mask.len(),
        n <= 65536,
    ensures
        actions_of(mask, n).contains(a) <==> a < n && mask[a as int] != 0,
        forall|i: int, j: int|
            0 <= i < j < actions_of(mask, n).len() ==> #[trigger] actions_of(mask, n)[i]
                < #[trigger] actions_of(mask, n)[j],
        forall|i: int| 0 <= i < actions_of(mask, n).len() ==> #[trigger] actions_of(mask, n)[i] < n,
    decreases n,
{
    if n > 0 {
        let before = actions_of(mask, (n - 1) as nat);
        law_mask_lists_actions(mask, (n - 1) as nat, a);
        let s = actions_of(mask, n);
        if mask[n - 1] != 0 {
            assert(s == before.push((n - 1) as Action));
            if before.contains(a) {
                let i = choose|i: int| 0 <= i < before.len() && before[i] == a;
                assert(s[i] == a);
            }
            if a == n - 1 {
                assert(s[before.len() as int] == a);
            }
            if s.contains(a) && a != n - 1 {
                let i = choose|i: int| 0 <= i < s.len() && s[i] == a;
                assert(before[i] == a);
            }
        }
    }
}

/// Law: a request is unpacked with its height, width and ancillas, its tokens without padding, and
/// the actions that its mask sets.
pub proof fn law_unpacked_request(e: crate::comms::RequestEntry)
    ensures
        ({
            let o = unpack_entry(e);
            &&& o.height == e.h
            &&& o.width == e.w
            &&& o.num_ancillas == e.num_ancillas
            &&& o.placement == e.placement.filter(|t: u16| t != 0)
            &&& o.objectives_0 == e.obj0.take(e.obj0_len as int).filter(|t: u16| t != 0)
            &&& o.objectives_1 == e.obj1.take(e.obj1_len as int).filter(|t: u16| t != 0)
            &&& o.valid_actions == actions_of(e.action_mask, 101)
        }),
{
    assert((|t: u16| t != 0) =~= (|t: u16| t != crate::observation::PAD_U16));
}

/// Law: a dense prior has the number of each action at its place, and 0 for an action without one;
/// read back, it has the positive numbers alone.
pub proof fn law_dense_prior<R: Scalar>(prior: Map<Action, R>, dense: Seq<R>, width: nat, a: Action)
    requires
        width <= 65536,
        a < width,
    ensures
        dense_prior(prior, width).len() == width,
        prior.contains_key(a) ==> dense_prior(prior, width)[a as int] == prior[a],
        !prior.contains_key(a) ==> dense_prior(prior, width)[a as int] == R::spec_decimal(0, 0),
        positive_prior(dense, width).contains_key(a) <==> R::spec_less(
            R::spec_decimal(0, 0),
            dense[a as int],
        ),
        positive_prior(dense, width).contains_key(a) ==> positive_prior(dense, width)[a]
            == dense[a as int],
{
}

/// Law: an answer is read for the actions of a mask, each at its place behind the start of its row.
pub proof fn law_answer_is_read_by_mask<R: Scalar>(
    mask: Seq<bool>,
    dense: Seq<R>,
    start: int,
    a: Action,
)
    ensures
        masked_prior(mask, dense, start).contains_key(a) <==> a < mask.len() && mask[a as int],
        masked_prior(mask, dense, start).contains_key(a) ==> masked_prior(mask, dense, start)[a]
            == dense[start + a],
{
}

/// Law: a packed observation of boards holds height, width, ancillas and layers as bytes. The
/// channels of a cell stand at ten times its place, 4000 to a layer, in their order, with zeros
/// behind the cells and the layers, and a 1 for each valid action.
pub proof fn law_packed_boards(o: TilersObsView, l: int, c: int, a: int)
    requires
        o.height < 256,
        o.width < 256,
        o.num_ancillas < 256,
        o.board.len() <= 3,
        0 <= l < 3,
        0 <= c < 400,
        0 <= a < 301,
    ensures
        ({
            let e = pack_obs(o);
            let k = l * 4000 + c * 10;
            let cell = o.board[l][c];
            &&& e.h == o.height
            &&& e.w == o.width
            &&& e.num_ancillas == o.num_ancillas
            &&& e.num_layers == o.board.len()
            &&& e.board.len() == 12000
            &&& e.action_mask.len() == 301
            &&& l < o.board.len() && c < o.board[l].len() ==> {
                &&& e.board[k] == cell.qubit_role
                &&& e.board[k + 1] == cell.factor_kind
                &&& e.board[k + 2] == cell.resource_kind
                &&& e.board[k + 3] == cell.pp_group_row
                &&& e.board[k + 4] == cell.pp_group_col
                &&& e.board[k + 5] == cell.ancilla_idx
                &&& e.board[k + 6] == cell.last_move_dir
                &&& e.board[k + 7] == cell.weight_in_pp
                &&& e.board[k + 8] == cell.is_hub_for_pp
                &&& e.board[k + 9] == cell.is_y_ready
            }
            &&& l >= o.board.len() || c >= o.board[l].len() ==> forall|f: int|
                0 <= f < 10 ==> #[trigger] e.board[k + f] == 0
            &&& e.action_mask[a] == (if a < o.action_mask.len() && o.action_mask[a] {
                1
            } else {
                0int
            })
        }),
{
    let e = pack_obs(o);
    let k = l * 4000 + c * 10;
    assert forall|f: int| 0 <= f < 10 implies #[trigger] e.board[k + f] == (if l < o.board.len()
        && c < o.board[l].len() {
        crate::tilers_obs::spec_channel(o.board[l][c], f)
    } else {
        0i16
    }) by {
        assert((k + f) / 4000 == l);
        assert(((k + f) % 4000) / 10 == c);
        assert((k + f) % 10 == f);
    }
    assert(e.board[k + 0] == e.board[k]);
}

/// Law: a packed observation of boards is unpacked with as many layers as it has, at most 3, and as
/// many cells as its grid, at most 400.
pub proof fn law_unpacked_boards(e: TilersEntry, l: int, c: int)
    requires
        0 <= l < e.num_layers,
        l < 3,
        0 <= c < e.h * e.w,
        c < 400,
    ensures
        ({
            let o = unpack_obs(e);
            let k = l * 4000 + c * 10;
            let cell = o.board[l][c];
            &&& o.height == e.h
            &&& o.width == e.w
            &&& o.num_ancillas == e.num_ancillas
            &&& o.num_layers == (if e.num_layers < 3 {
                e.num_layers as int
            } else {
                3
            })
            &&& o.board.len() == o.num_layers
            &&& o.board[l].len() == (if e.h * e.w < 400 {
                e.h * e.w
            } else {
                400
            })
            &&& cell.qubit_role == e.board[k]
            &&& cell.factor_kind == e.board[k + 1]
            &&& cell.resource_kind == e.board[k + 2]
            &&& cell.pp_group_row == e.board[k + 3]
            &&& cell.pp_group_col == e.board[k + 4]
            &&& cell.ancilla_idx == e.board[k + 5]
            &&& cell.last_move_dir == e.board[k + 6]
            &&& cell.weight_in_pp == e.board[k + 7]
            &&& cell.is_hub_for_pp == e.board[k + 8]
            &&& cell.is_y_ready == e.board[k + 9]
            &&& o.action_mask.len() == 301
            &&& forall|a: int| 0 <= a < 301 ==> (#[trigger] o.action_mask[a] <==> e.action_mask[a]
                != 0)
        }),
{
}

proof fn lemma_tall_board(observations: Seq<TilersObs>, k: nat)
    requires
        k <= observations.len() <= usize::MAX,
        forall|i: int|
            0 <= i < observations.len() ==> (#[trigger] observations[i]).board@.len() <= usize::MAX,
    ensures
        tall_board(observations, k) is None <==> forall|i: int|
            0 <= i < k ==> (#[trigger] observations[i]).board@.len() <= 3,
        tall_board(observations, k) is Some ==> exists|i: int|
            0 <= i < k && (#[trigger] observations[i]).board@.len() > 3
                && observations[i].board@.len()
                == tall_board(observations, k)->0 && forall|j: int|
                0 <= j < i ==> (#[trigger] observations[j]).board@.len() <= 3,
    decreases k,
{
    if k > 0 {
        lemma_tall_board(observations, (k - 1) as nat);
        if tall_board(observations, (k - 1) as nat) is None
            && observations[k - 1].board@.len() > 3 {
            assert(tall_board(observations, k) == Some(
                observations[k - 1].board@.len() as usize,
            ));
        }
    }
}

/// Law: a batch is taken exactly where it has 1 to 8 observations of at most 3 layers each. A batch
/// of another size is refused with its size, and else with the layers of the first board that has
/// too many.
pub proof fn law_batch_is_checked(observations: Seq<TilersObs>)
    requires
        observations.len() <= usize::MAX,
        forall|i: int|
            0 <= i < observations.len() ==> (#[trigger] observations[i]).board@.len() <= usize::MAX,
    ensures
        ({
            let n = observations.len();
            let error = batch_error(observations);
            &&& !(1 <= n <= 8) ==> error == Some(BatchError::Size { batch: n as usize })
            &&& 1 <= n <= 8 ==> (error is None <==> forall|i: int|
                0 <= i < n ==> (#[trigger] observations[i]).board@.len() <= 3)
            &&& 1 <= n <= 8 && error is Some ==> exists|i: int|
                0 <= i < n && (#[trigger] observations[i]).board@.len() > 3 && error == Some(
                    BatchError::Layers { layers: observations[i].board@.len() as usize },
                ) && forall|j: int| 0 <= j < i ==> (#[trigger] observations[j]).board@.len() <= 3
        }),
{
    lemma_tall_board(observations, observations.len());
}

/// Law: an arena has 1 to 2048 slots and 1 to 4 handlers; a request for anything else is refused
/// with what is wrong, the slots first.
pub proof fn law_arena_request(num_slots: usize, num_handlers: usize)
    ensures
        request_error(num_slots, num_handlers) is None <==> 1 <= num_slots <= 2048 && 1
            <= num_handlers <= 4,
        num_slots == 0 ==> request_error(num_slots, num_handlers) == Some(ArenaError::NoSlots),
        num_slots > 2048 ==> request_error(num_slots, num_handlers) == Some(
            ArenaError::TooManySlots { num_slots },
        ),
        1 <= num_slots <= 2048 && !(1 <= num_handlers <= 4) ==> request_error(
            num_slots,
            num_handlers,
        ) == Some(ArenaError::BadHandlers { num_handlers }),
{
}

/// Law: an arena that was found is taken exactly where its mark, its version and its numbers of
/// slots and handlers are those asked for; one that is not marked as done is set up first.
pub proof fn law_arena_found(
    init_done: u32,
    magic: u64,
    version: u32,
    found_slots: u32,
    found_handlers: u32,
    num_slots: usize,
    num_handlers: usize,
)
    ensures
        header_error(magic, version, found_slots, found_handlers, num_slots, num_handlers) is None
            <==> magic == 0x4D435453495043 && version == 1 && found_slots == num_slots
            && found_handlers == num_handlers,
        magic == 0x4D435453495043 && version != 1 ==> header_error(
            magic,
            version,
            found_slots,
            found_handlers,
            num_slots,
            num_handlers,
        ) == Some(ArenaError::VersionMismatch { found: version }),
        !spec_needs_init(init_done, magic, version) <==> init_done != 0 && magic
            == 0x4D435453495043 && version == 1,
{
}

/// Law: leaves wait until there is a batch of them, and then go together; after a pause or at the
/// end those that wait go as they are. Only a stop after a pause, or the end, ends the worker.
pub proof fn law_leaves_go_in_batches<M>(
    pending: Seq<M>,
    batch_size: usize,
    event: Incoming<M>,
    stop: bool,
)
    ensures
        ({
            let (batch, rest, exit) = after_event(pending, batch_size, event, stop);
            match event {
                Incoming::Item(m) => {
                    &&& batch + rest == pending.push(m)
                    &&& batch.len() == 0 || rest.len() == 0
                    &&& batch.len() > 0 <==> pending.len() + 1 >= batch_size
                    &&& !exit
                },
                Incoming::Timeout => batch == pending && rest.len() == 0 && exit == stop,
                Incoming::Disconnected => batch == pending && rest.len() == 0 && exit,
            }
        }),
{
    let (batch, rest, exit) = after_event(pending, batch_size, event, stop);
    if let Incoming::Item(m) = event {
        assert(batch + rest =~= pending.push(m));
    }
}

/// Law: an agent that knows nothing gives every action, or every valid action, the same share.
pub proof fn law_ignorant_agents_are_even<R: Scalar>(
    n: usize,
    a: usize,
    actions: Seq<Action>,
    b: Action,
)
    ensures
        uniform_prior::<R>(n).contains_key(a) <==> a < n,
        a < n ==> uniform_prior::<R>(n)[a] == over(R::spec_decimal(1, 0), R::spec_count(n)),
        even_prior::<R>(actions).contains_key(b) <==> actions.contains(b),
        actions.contains(b) ==> even_prior::<R>(actions)[b] == over(
            R::spec_decimal(1, 0),
            R::spec_count(actions.len() as usize),
        ),
{
}

/// Law: without an answer every action of a mask has the number 1, and no other action has one.
pub proof fn law_default_answer<R: Scalar>(mask: Seq<bool>, a: Action)
    ensures
        ones_prior::<R>(mask).contains_key(a) <==> a < mask.len() && mask[a as int],
        ones_prior::<R>(mask).contains_key(a) ==> ones_prior::<R>(mask)[a] == R::spec_decimal(
            1,
            0,
        ),
{
}

/// Law: the observation `i` of a slot stands in its own rows: 400 tokens of the grid, 800 of each
/// kind of objectives and 101 actions to a row. It has as many cells as its grid, at most 400.
pub proof fn law_slot_rows<R: Scalar>(s: &Slot<R>, i: int, j: int)
    requires
        s.wf(),
        0 <= i < s.b,
        0 <= j,
    ensures
        ({
            let o = s.observation(i);
            let cells = if s.h@[i] * s.w@[i] < 400 {
                s.h@[i] * s.w@[i]
            } else {
                400
            };
            &&& o.height == s.h@[i]
            &&& o.width == s.w@[i]
            &&& o.placement.len() == cells
            &&& o.objectives_0.len() == s.obj0_len@[i]
            &&& o.objectives_1.len() == s.obj1_len@[i]
            &&& j < cells ==> o.placement[j] == s.placement@[i * 400 + j]
            &&& j < s.obj0_len@[i] ==> o.objectives_0[j] == s.obj0@[i * 800 + j]
            &&& j < s.obj1_len@[i] ==> o.objectives_1[j] == s.obj1@[i * 800 + j]
            &&& j < 101 ==> (o.valid_actions.contains(j as Action) <==> s.action_mask@[i * 101 + j]
                != 0)
        }),
{
    assert(s.obj0_len@[i] == s.obj0_len@[i]);
    assert(s.obj1_len@[i] == s.obj1_len@[i]);
    let row = s.action_mask@.subrange(i * 101, i * 101 + 101);
    assert(i * 101 + 101 <= 808);
    if j < 101 {
        law_mask_lists_actions(row, 101, j as Action);
        assert(row[j] == s.action_mask@[i * 101 + j]);
    }
}

/// Law: the prior of the observation `i` stands in its own row of 101 numbers, and all other rows
/// are 0.
pub proof fn law_lone_prior<R: Scalar>(prior: Map<Action, R>, i: int, k: int)
    requires
        0 <= i < 8,
        0 <= k < 808,
    ensures
        ({
            let dense = lone_prior(prior, i);
            let a = k - i * 101;
            &&& dense.len() == 808
            &&& 0 <= a < 101 && prior.contains_key(a as Action) ==> dense[k] == prior[a as Action]
            &&& !(0 <= a < 101) || !prior.contains_key(a as Action) ==> dense[k]
                == R::spec_decimal(0, 0)
        }),
{
}

/// Law: a slot tells at most 8 observations, whatever number it holds.
pub proof fn law_slot_batch<R: Scalar>(s: &TilersSlot<R>)
    ensures
        s.b <= 8 ==> s.spec_batch_len() == s.b,
        s.b > 8 ==> s.spec_batch_len() == 8,
{
}

/// Law: the digits of a number, the highest first, make up the number, each worth ten times the one
/// behind it; a number has no leading zero.
pub proof fn law_digits_make_up_numbers(n: nat)
    ensures
        digits(n).fold_left(0int, |sum: int, c: char| 10 * sum + (c as u32 - '0' as u32)) == n,
        digits(n).len() >= 1,
        n > 0 ==> digits(n)[0] != '0',
        forall|i: int| 0 <= i < digits(n).len() ==> '0' <= #[trigger] digits(n)[i] <= '9',
    decreases n,
{
    reveal_with_fuel(Seq::fold_left, 2);
    let s = digits(n);
    if n < 10 {
        assert(s.drop_last() =~= Seq::<char>::empty());
    } else {
        law_digits_make_up_numbers(n / 10);
        let head = digits(n / 10);
        assert(s.drop_last() =~= head);
        assert(s[0] == head[0]);
    }
}

/// Law: a list of numbers as text is the digits of each, in order, with one comma between two of
/// them; a list of none is empty.
pub proof fn law_lists_are_separated_by_commas(v: Seq<u16>, x: u16)
    ensures
        comma_list(Seq::empty()).len() == 0,
        comma_list(seq![x]) == digits(x as nat),
        v.len() > 0 ==> comma_list(v.push(x)) == comma_list(v) + seq![','] + digits(x as nat),
{
    if v.len() > 0 {
        assert(v.push(x).drop_last() =~= v);
        assert(comma_list(v.push(x)) =~= comma_list(v) + seq![','] + digits(x as nat));
    }
}

/// Law: each leaf is paired with the prior and the value at its place.
pub proof fn law_leaves_get_their_answers<M, A, R>(
    results: Seq<InferenceResult<M, A, R>>,
    metas: Seq<M>,
    priors: Seq<HashMap<A, R>>,
    values: Seq<R>,
    i: int,
)
    requires
        are_paired(results, metas, priors, values),
        0 <= i < results.len(),
    ensures
        results[i].meta == metas[i],
        results[i].priors == priors[i],
        results[i].value == values[i],
{
}

/// Law: a tuple that is made into an observation and back is the same. An observation that is made
/// into a tuple and back has lost its ancillas, and nothing else.
pub proof fn law_tuples_keep_observations(t: ObservationTuple, o: Observation)
    ensures
        <ObservationTuple as FromSpec<Observation>>::from_spec(
            <Observation as FromSpec<ObservationTuple>>::from_spec(t),
        ) == t,
        <Observation as FromSpec<ObservationTuple>>::from_spec(
            <ObservationTuple as FromSpec<Observation>>::from_spec(o),
        ) == (Observation { num_ancillas: 0, ..o }),
        <Observation as FromSpec<ObservationTuple>>::from_spec(t).placement == t.0,
        <Observation as FromSpec<ObservationTuple>>::from_spec(t).objectives_0 == t.1,
        <Observation as FromSpec<ObservationTuple>>::from_spec(t).height == t.3,
{
}

/// Law: the game on a line has two actions in every state, one to the right and one to the left,
/// and is over once it is further from its middle than its limit.
pub proof fn law_line_game<R: Scalar>(e: MockEnv, action: i32)
    requires
        i32::MIN < e.state < i32::MAX,
    ensures
        <MockEnv as Environment<R>>::spec_valid(&e) == seq![0i32, 1i32],
        ({
            let next = <MockEnv as Environment<R>>::spec_next(&e, action);
            &&& next.limit == e.limit
            &&& action == 1 ==> next.state == e.state + 1
            &&& action != 1 ==> next.state == e.state - 1
        }),
        <MockEnv as Environment<R>>::spec_done(&e) <==> !(-e.limit <= e.state <= e.limit),
{
}

} // verus!
