//! The table of the shared search: a `DashMap` of the `dashmap` crate.

use dashmap::DashMap;
use vstd::prelude::*;

verus! {

/// `dashmap::DashMap`, a map that many threads can share.
#[verifier::external_type_specification]
#[verifier::external_body]
#[verifier::reject_recursive_types(K)]
#[verifier::reject_recursive_types(V)]
#[verifier::reject_recursive_types(S)]
pub struct ExDashMap<K, V, S>(DashMap<K, V, S>);

/// What a `DashMap` holds.
pub uninterp spec fn dash_contents(t: DashMap<u64, usize>) -> Map<u64, usize>;

/// `DashMap::new`: an empty map.
#[verifier::external_body]
fn dash_new() -> (r: DashMap<u64, usize>)
    ensures
        forall|key: u64| !#[trigger] dash_contents(r).contains_key(key),
{
    DashMap::new()
}

/// `DashMap::get`: what is stored under a key, where there is something.
#[verifier::external_body]
fn dash_get(t: &DashMap<u64, usize>, key: u64) -> (r: Option<usize>)
    ensures
        r == (if dash_contents(*t).contains_key(key) {
            Some(dash_contents(*t)[key])
        } else {
            None
        }),
{
    t.get(&key).map(|e| *e.value())
}

/// `DashMap::insert`: stores a value under a key, in place of what was there.
#[verifier::external_body]
fn dash_insert(t: &mut DashMap<u64, usize>, key: u64, value: usize)
    ensures
        dash_contents(*final(t)) == dash_contents(*old(t)).insert(key, value),
{
    t.insert(key, value);
}

/// Where the nodes of a search stand, by their ids. The map behind it is not handed out, since it
/// can be changed through a shared reference.
pub struct NodeTable {
    map: DashMap<u64, usize>,
}

impl View for NodeTable {
    type V = Map<u64, usize>;

    closed spec fn view(&self) -> Map<u64, usize> {
        dash_contents(self.map)
    }
}

impl NodeTable {
    /// An empty table.
    pub fn new() -> (r: Self)
        ensures
            r@ == Map::<u64, usize>::empty(),
    {
        let r: NodeTable = NodeTable { map: dash_new() };
        assert(r@ =~= Map::<u64, usize>::empty());
        r
    }

    /// Where the node of an id stands, if there is one.
    pub fn get(&self, id: u64) -> (r: Option<usize>)
        ensures
            r == (if self@.contains_key(id) {
                Some(self@[id])
            } else {
                None
            }),
    {
        dash_get(&self.map, id)
    }

    /// Records where the node of an id stands.
    pub fn insert(&mut self, id: u64, place: usize)
        ensures
            final(self)@ == old(self)@.insert(id, place),
    {
        dash_insert(&mut self.map, id, place);
    }
}

} // verus!
