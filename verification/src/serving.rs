//! An inference server: requests that come close together are answered by one inference.

use crate::mcts::lemma_total_take;
use crate::node::total;
use std::collections::HashMap;
use vstd::prelude::*;

verus! {

/// The most requests of one inference.
pub const MAX_BATCH_SIZE: usize = 1024;

/// A request: observations to infer priors and values from.
pub struct InferenceRequest<O> {
    pub observation_batch: Vec<O>,
}

/// The answer to a request: a prior and a value for each of its observations.
pub struct InferenceResponse<A, R> {
    pub prior_batch: Vec<HashMap<A, R>>,
    pub value_batch: Vec<R>,
}

/// The observations of some requests, one after the other.
pub open spec fn flat<O>(requests: Seq<InferenceRequest<O>>) -> Seq<O>
    decreases requests.len(),
{
    if requests.len() == 0 {
        Seq::empty()
    } else {
        flat(requests.drop_last()) + requests.last().observation_batch@
    }
}

/// The number of observations of each request.
pub open spec fn counts_of<O>(requests: Seq<InferenceRequest<O>>) -> Seq<usize> {
    Seq::new(requests.len(), |i: int| requests[i].observation_batch@.len() as usize)
}

/// Where the observations of a request begin.
pub open spec fn offset(counts: Seq<usize>, i: int) -> int {
    total(counts.take(i)) as int
}

/// Whether one more request can join those that wait.
pub fn takes_more(waiting: usize) -> (r: bool)
    ensures
        r == (waiting < MAX_BATCH_SIZE),
{
    waiting < MAX_BATCH_SIZE
}

/// Puts the observations of some requests one after the other, and counts those of each.
pub fn flatten<O>(requests: Vec<InferenceRequest<O>>) -> (r: (Vec<O>, Vec<usize>))
    ensures
        r.0@ == flat(requests@),
        r.1@ == counts_of(requests@),
{
    let ghost all = requests@;
    let mut obs: Vec<O> = Vec::new();
    let mut counts: Vec<usize> = Vec::with_capacity(requests.len());
    assert(all.take(0).len() == 0);
    assert(obs@ =~= flat(all.take(0)));
    for request in it: requests
        invariant
            it.seq() == all,
            obs@ == flat(all.take(it.index() as int)),
            counts@ == counts_of(all).take(it.index() as int),
    {
        let mut batch: Vec<O> = request.observation_batch;
        let ghost i = it.index() as int;
        proof {
            assert(all.take(i + 1).drop_last() =~= all.take(i));
            assert(all.take(i + 1).last() == request);
        }
        counts.push(batch.len());
        obs.append(&mut batch);
        assert(counts@ =~= counts_of(all).take(i + 1));
    }
    assert(all.take(all.len() as int) =~= all);
    assert(counts@ =~= counts_of(all));
    (obs, counts)
}

/// Whether some responses are the parts of priors and values that some counts cut out.
pub open spec fn are_parts<A, R>(
    responses: Seq<InferenceResponse<A, R>>,
    counts: Seq<usize>,
    priors: Seq<HashMap<A, R>>,
    values: Seq<R>,
) -> bool {
    &&& responses.len() == counts.len()
    &&& forall|i: int|
        0 <= i < counts.len() ==> (#[trigger] responses[i]).prior_batch@ == priors.subrange(
            offset(counts, i),
            offset(counts, i + 1),
        ) && responses[i].value_batch@ == values.subrange(
            offset(counts, i),
            offset(counts, i + 1),
        )
}

/// Cuts the answers to flattened requests into the answers to each, in order.
pub fn split_answers<A, R>(
    counts: &Vec<usize>,
    priors: Vec<HashMap<A, R>>,
    values: Vec<R>,
) -> (r: Vec<InferenceResponse<A, R>>)
    requires
        total(counts@) <= priors@.len(),
        total(counts@) <= values@.len(),
    ensures
        are_parts(r@, counts@, priors@, values@),
{
    let ghost (ps, vs) = (priors@, values@);
    let mut priors: Vec<HashMap<A, R>> = priors;
    let mut values: Vec<R> = values;
    let mut out: Vec<InferenceResponse<A, R>> = Vec::with_capacity(counts.len());
    let mut i: usize = 0;
    assert(counts@.take(0).len() == 0);
    assert(ps.skip(0) =~= ps);
    assert(vs.skip(0) =~= vs);
    while i < counts.len()
        invariant
            i <= counts@.len(),
            total(counts@) <= ps.len(),
            total(counts@) <= vs.len(),
            0 <= offset(counts@, i as int) <= total(counts@),
            priors@ == ps.skip(offset(counts@, i as int)),
            values@ == vs.skip(offset(counts@, i as int)),
            out@.len() == i,
            forall|k: int|
                0 <= k < i ==> (#[trigger] out@[k]).prior_batch@ == ps.subrange(
                    offset(counts@, k),
                    offset(counts@, k + 1),
                ) && out@[k].value_batch@ == vs.subrange(
                    offset(counts@, k),
                    offset(counts@, k + 1),
                ),
        decreases counts.len() - i,
    {
        let n: usize = counts[i];
        proof {
            lemma_total_take(counts@, i as int);
        }
        let ghost start = offset(counts@, i as int);
        let ghost end = offset(counts@, i + 1);
        let rest_priors: Vec<HashMap<A, R>> = priors.split_off(n);
        let rest_values: Vec<R> = values.split_off(n);
        assert(priors@ =~= ps.subrange(start, end));
        assert(values@ =~= vs.subrange(start, end));
        assert(rest_priors@ =~= ps.skip(end));
        assert(rest_values@ =~= vs.skip(end));
        out.push(InferenceResponse { prior_batch: priors, value_batch: values });
        priors = rest_priors;
        values = rest_values;
        i += 1;
    }
    out
}

/// The observations of a request stand in the flattened ones where its offset says.
proof fn lemma_flat_part<O>(requests: Seq<InferenceRequest<O>>, i: int)
    requires
        0 <= i < requests.len(),
        forall|k: int|
            0 <= k < requests.len() ==> (#[trigger] requests[k]).observation_batch@.len()
                <= usize::MAX,
    ensures
        total(counts_of(requests)) == flat(requests).len(),
        0 <= offset(counts_of(requests), i) <= offset(counts_of(requests), i + 1) <= flat(
            requests,
        ).len(),
        flat(requests).subrange(
            offset(counts_of(requests), i),
            offset(counts_of(requests), i + 1),
        ) == requests[i].observation_batch@,
    decreases requests.len(),
{
    let counts = counts_of(requests);
    let init = requests.drop_last();
    let n = requests.len() as int;
    assert(counts.drop_last() =~= counts_of(init));
    assert(counts.take(n) =~= counts);
    assert(counts.take(n - 1) =~= counts_of(init));
    assert forall|k: int| 0 <= k < init.len() implies (#[trigger] init[k]).observation_batch@.len()
        <= usize::MAX by {
        assert(init[k] == requests[k]);
    }
    if i < n - 1 {
        lemma_flat_part(init, i);
        assert(counts.take(i) =~= counts_of(init).take(i));
        assert(counts.take(i + 1) =~= counts_of(init).take(i + 1));
        assert(flat(requests).subrange(offset(counts, i), offset(counts, i + 1)) =~= flat(
            init,
        ).subrange(offset(counts, i), offset(counts, i + 1)));
    } else {
        if init.len() > 0 {
            lemma_flat_part(init, 0);
        } else {
            assert(counts_of(init).len() == 0);
        }
        assert(counts.last() == requests.last().observation_batch@.len());
        assert(flat(requests).subrange(offset(counts, i), offset(counts, i + 1))
            =~= requests[i].observation_batch@);
    }
}

/// Law: every request gets the answers to its own observations. Where the values of the
/// flattened observations are what `f` makes of each, and their priors what `g` makes of each, the
/// values and priors of every response are what `f` and `g` make of the observations of its
/// request, in their order.
pub proof fn law_requests_get_their_answers<O, A, R>(
    requests: Seq<InferenceRequest<O>>,
    priors: Seq<HashMap<A, R>>,
    values: Seq<R>,
    responses: Seq<InferenceResponse<A, R>>,
    f: spec_fn(O) -> R,
    g: spec_fn(O) -> HashMap<A, R>,
    i: int,
)
    requires
        are_parts(responses, counts_of(requests), priors, values),
        values == flat(requests).map_values(f),
        priors == flat(requests).map_values(g),
        forall|k: int|
            0 <= k < requests.len() ==> (#[trigger] requests[k]).observation_batch@.len()
                <= usize::MAX,
        0 <= i < requests.len(),
    ensures
        responses[i].value_batch@ == requests[i].observation_batch@.map_values(f),
        responses[i].prior_batch@ == requests[i].observation_batch@.map_values(g),
{
    lemma_flat_part(requests, i);
    let counts = counts_of(requests);
    let own = flat(requests).subrange(offset(counts, i), offset(counts, i + 1));
    assert(own == requests[i].observation_batch@);
    assert(responses[i].value_batch@ =~= own.map_values(f));
    assert(responses[i].prior_batch@ =~= own.map_values(g));
}

} // verus!
