//! Walking over hash maps, whose order is not fixed.

use std::collections::HashMap;
use std::hash::Hash;
use vstd::prelude::*;
use vstd::std_specs::hash::obeys_key_model;

verus! {

/// Whether a sequence lists the elements of a set, each once.
pub open spec fn lists<K>(order: Seq<K>, set: Set<K>) -> bool {
    &&& order.no_duplicates()
    &&& forall|k: K| #[trigger] order.contains(k) <==> set.contains(k)
}

/// The keys of a map, in the order in which it is walked.
pub fn walk<K: Copy + Eq + Hash, V>(m: &HashMap<K, V>) -> (r: Vec<K>)
    requires
        obeys_key_model::<K>(),
    ensures
        lists(r@, m@.dom()),
{
    broadcast use vstd::std_specs::hash::group_hash_axioms;

    let mut out: Vec<K> = Vec::with_capacity(m.len());
    for k in it: m.keys()
        invariant
            obeys_key_model::<K>(),
            it.seq().no_duplicates(),
            it.seq().unref().to_set() == m@.dom(),
            out@ == it.seq().unref().take(it.index() as int),
            out@.no_duplicates(),
            forall|k: K| #[trigger] out@.contains(k) ==> m@.dom().contains(k),
            forall|k: K|
                m@.dom().contains(k) && !(#[trigger] out@.contains(k)) ==> exists|j: int|
                    it.index() <= j < it.seq().len() && *(#[trigger] it.seq()[j]) == k,
    {
        let ghost all = it.seq().unref();
        let ghost i = it.index() as int;
        let ghost before = out@;
        proof {
            assert(all[i] == *k);
            assert(all.to_set().contains(all[i]));
            assert(!before.contains(*k)) by {
                if before.contains(*k) {
                    let j = choose|j: int| 0 <= j < before.len() && before[j] == *k;
                    assert(all[j] == *k);
                    assert(it.seq()[j] == it.seq()[i]);
                }
            }
        }
        out.push(*k);
        proof {
            assert(out@ =~= all.take(i + 1));
            assert forall|x: K| #[trigger] out@.contains(x) <==> before.contains(x) || x
                == *k by {
                if before.contains(x) {
                    let j = choose|j: int| 0 <= j < before.len() && before[j] == x;
                    assert(out@[j] == x);
                }
                assert(out@[i] == *k);
            }
        }
    }
    out
}

/// A number of things.
pub trait Count: Copy {
    /// How many there are.
    spec fn amount(self) -> nat;
}

impl Count for usize {
    open spec fn amount(self) -> nat {
        self as nat
    }
}

impl Count for u32 {
    open spec fn amount(self) -> nat {
        self as nat
    }
}

/// The sum of the counts of a map over some keys.
pub open spec fn sum_over<K, V: Count>(order: Seq<K>, m: Map<K, V>) -> nat
    decreases order.len(),
{
    if order.len() == 0 {
        0
    } else {
        sum_over(order.drop_last(), m) + m[order.last()].amount()
    }
}

/// The sum of all counts of a finite map.
pub open spec fn map_total<K, V: Count>(m: Map<K, V>) -> nat
    decreases m.dom().len(),
    when m.dom().finite()
{
    if m.dom().len() == 0 {
        0
    } else {
        let k = m.dom().choose();
        m[k].amount() + map_total(m.remove(k))
    }
}

/// Any key can be taken off the sum.
pub proof fn lemma_total_remove<K, V: Count>(m: Map<K, V>, k: K)
    requires
        m.dom().finite(),
        m.contains_key(k),
    ensures
        map_total(m) == m[k].amount() + map_total(m.remove(k)),
    decreases m.dom().len(),
{
    let c = m.dom().choose();
    assert(m.dom().contains(c));
    if c != k {
        lemma_total_remove(m.remove(c), k);
        lemma_total_remove(m.remove(k), c);
        assert(m.remove(c).remove(k) =~= m.remove(k).remove(c));
    }
}

/// What a count adds to the sum.
pub proof fn lemma_total_insert<K, V: Count>(m: Map<K, V>, k: K, v: V)
    requires
        m.dom().finite(),
    ensures
        map_total(m.insert(k, v)) == v.amount() + map_total(m.remove(k)),
        m.contains_key(k) ==> map_total(m) == m[k].amount() + map_total(m.remove(k)),
        !m.contains_key(k) ==> map_total(m) == map_total(m.remove(k)),
{
    assert(m.insert(k, v).remove(k) =~= m.remove(k));
    lemma_total_remove(m.insert(k, v), k);
    if m.contains_key(k) {
        lemma_total_remove(m, k);
    } else {
        assert(m.remove(k) =~= m);
    }
}

/// The sum of nothing but zeros is 0.
pub proof fn lemma_total_zero<K, V: Count>(m: Map<K, V>)
    requires
        m.dom().finite(),
        forall|k: K| #[trigger] m.contains_key(k) ==> m[k].amount() == 0,
    ensures
        map_total(m) == 0,
    decreases m.dom().len(),
{
    if m.dom().len() > 0 {
        let k = m.dom().choose();
        assert(m.contains_key(k));
        assert forall|j: K| #[trigger] m.remove(k).contains_key(j) implies m.remove(k)[j].amount()
            == 0 by {
            assert(m.contains_key(j));
        }
        lemma_total_zero(m.remove(k));
    }
}

/// The sum over some keys depends on those keys only.
proof fn lemma_sum_frame<K, V: Count>(order: Seq<K>, m: Map<K, V>, n: Map<K, V>)
    requires
        forall|k: K| #[trigger] order.contains(k) ==> m[k] == n[k],
    ensures
        sum_over(order, m) == sum_over(order, n),
    decreases order.len(),
{
    if order.len() > 0 {
        assert(order.contains(order[order.len() - 1]));
        assert forall|k: K| #[trigger] order.drop_last().contains(k) implies m[k] == n[k] by {
            let i = choose|i: int| 0 <= i < order.len() - 1 && order.drop_last()[i] == k;
            assert(order[i] == k);
            assert(order.contains(k));
        }
        lemma_sum_frame(order.drop_last(), m, n);
    }
}

/// The sum of a map is the sum over its keys, in whatever order.
pub proof fn lemma_sum_any_order<K, V: Count>(order: Seq<K>, m: Map<K, V>)
    requires
        lists(order, m.dom()),
    ensures
        m.dom().finite(),
        sum_over(order, m) == map_total(m),
    decreases order.len(),
{
    assert(m.dom() =~= order.to_set());
    vstd::seq_lib::seq_to_set_is_finite(order);
    if order.len() == 0 {
        assert(m.dom() =~= Set::<K>::empty());
    } else {
        let k = order.last();
        let init = order.drop_last();
        assert(order.contains(order[order.len() - 1]));
        assert forall|j: K| #[trigger] init.contains(j) <==> m.remove(k).dom().contains(j) by {
            if init.contains(j) {
                let i = choose|i: int| 0 <= i < init.len() && init[i] == j;
                assert(order[i] == j);
                assert(order.contains(j));
                assert(order[i] != order[order.len() - 1]);
            }
            if m.remove(k).dom().contains(j) {
                assert(order.contains(j));
                let i = choose|i: int| 0 <= i < order.len() && order[i] == j;
                assert(init[i] == j);
            }
        }
        lemma_sum_any_order(init, m.remove(k));
        lemma_sum_frame(init, m, m.remove(k));
        lemma_total_remove(m, k);
    }
}

/// A part of a sum is at most the sum.
proof fn lemma_sum_take<K, V: Count>(order: Seq<K>, m: Map<K, V>, k: int)
    requires
        0 <= k < order.len(),
    ensures
        sum_over(order.take(k + 1), m) == sum_over(order.take(k), m) + m[order[k]].amount(),
        sum_over(order.take(k + 1), m) <= sum_over(order, m),
    decreases order.len(),
{
    assert(order.take(k + 1).drop_last() =~= order.take(k));
    if k + 1 < order.len() {
        let init = order.drop_last();
        lemma_sum_take(init, m, k);
        assert(init.take(k + 1) =~= order.take(k + 1));
    } else {
        assert(order.take(k + 1) =~= order);
    }
}

/// The sum of all counts of a map.
pub fn sum_counts<K: Copy + Eq + Hash>(m: &HashMap<K, usize>) -> (r: usize)
    requires
        obeys_key_model::<K>(),
        map_total(m@) <= usize::MAX,
    ensures
        r == map_total(m@),
{
    broadcast use vstd::std_specs::hash::group_hash_axioms;

    let order: Vec<K> = walk(m);
    proof {
        lemma_sum_any_order(order@, m@);
    }
    let mut out: usize = 0;
    let mut i: usize = 0;
    assert(order@.take(0).len() == 0);
    while i < order.len()
        invariant
            obeys_key_model::<K>(),
            i <= order@.len(),
            lists(order@, m@.dom()),
            sum_over(order@, m@) <= usize::MAX,
            out == sum_over(order@.take(i as int), m@),
        decreases order.len() - i,
    {
        let k: K = order[i];
        assert(order@.contains(order@[i as int]));
        proof {
            lemma_sum_take(order@, m@, i as int);
        }
        if let Some(c) = m.get(&k) {
            out = out + *c;
        }
        i += 1;
    }
    assert(order@.take(i as int) =~= order@);
    out
}

/// The sum of all counts of a map, where they are small.
pub fn sum_small_counts<K: Copy + Eq + Hash>(m: &HashMap<K, u32>) -> (r: u32)
    requires
        obeys_key_model::<K>(),
        map_total(m@) <= u32::MAX,
    ensures
        r == map_total(m@),
{
    broadcast use vstd::std_specs::hash::group_hash_axioms;

    let order: Vec<K> = walk(m);
    proof {
        lemma_sum_any_order(order@, m@);
    }
    let mut out: u32 = 0;
    let mut i: usize = 0;
    assert(order@.take(0).len() == 0);
    while i < order.len()
        invariant
            obeys_key_model::<K>(),
            i <= order@.len(),
            lists(order@, m@.dom()),
            sum_over(order@, m@) <= u32::MAX,
            out == sum_over(order@.take(i as int), m@),
        decreases order.len() - i,
    {
        let k: K = order[i];
        assert(order@.contains(order@[i as int]));
        proof {
            lemma_sum_take(order@, m@, i as int);
        }
        if let Some(c) = m.get(&k) {
            out = out + *c;
        }
        i += 1;
    }
    assert(order@.take(i as int) =~= order@);
    out
}

/// A copy of a map of counts.
pub fn copy_counts<K: Copy + Eq + Hash, V: Copy>(m: &HashMap<K, V>) -> (r: HashMap<K, V>)
    requires
        obeys_key_model::<K>(),
    ensures
        r@ == m@,
{
    broadcast use vstd::std_specs::hash::group_hash_axioms;

    let order: Vec<K> = walk(m);
    let mut out: HashMap<K, V> = HashMap::new();
    let mut i: usize = 0;
    while i < order.len()
        invariant
            obeys_key_model::<K>(),
            i <= order@.len(),
            lists(order@, m@.dom()),
            forall|k: K|
                out@.contains_key(k) <==> exists|j: int| 0 <= j < i && #[trigger] order@[j] == k,
            forall|k: K| #[trigger] out@.contains_key(k) ==> out@[k] == m@[k],
        decreases order.len() - i,
    {
        let k: K = order[i];
        assert(order@.contains(order@[i as int]));
        if let Some(v) = m.get(&k) {
            out.insert(k, *v);
        }
        i += 1;
    }
    assert forall|k: K| out@.contains_key(k) == m@.contains_key(k) by {
        assert(order@.contains(k) <==> m@.dom().contains(k));
    }
    assert(out@ =~= m@);
    out
}

} // verus!
