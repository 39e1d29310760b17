use std::collections::HashMap;

use vstd::prelude::*;

use crate::resources::id::{next_index, Id, IdGen};

verus! {

broadcast use vstd::std_specs::hash::group_hash_axioms;

/// Resources of one kind, each stored under an `Id` that the map hands out.
pub struct ResourceMap<I, T> {
    id_gen: IdGen<I>,
    map: HashMap<usize, T>,
}

impl<I: Id, T> ResourceMap<I, T> {
    /// The stored resources, by id index.
    pub closed spec fn view(&self) -> Map<usize, T> {
        self.map@
    }

    /// The index of the next id the map hands out.
    pub closed spec fn next_index(&self) -> usize {
        self.id_gen.counter()
    }

    /// Every stored id is below the next one to be handed out, so new ids are fresh.
    pub open spec fn fresh_ids(&self) -> bool {
        forall|k: usize| #[trigger] self@.contains_key(k) ==> k < self.next_index()
    }

    /// Creates an empty map.
    pub fn new() -> (m: Self)
        ensures
            m@ == Map::<usize, T>::empty(),
            m.next_index() == 0,
            m.fresh_ids(),
    {
        ResourceMap { id_gen: IdGen::new(), map: HashMap::new() }
    }

    /// Borrow the resource associated with the given `Id`.
    pub fn get(&self, id: I) -> (r: Option<&T>)
        ensures
            r matches Some(v) ==> self@.contains_key(id.index()) && *v == self@[id.index()],
            r is None ==> !self@.contains_key(id.index()),
    {
        self.map.get(&id.index_exec())
    }

    /// Adds the given resource to the map and returns the `Id` it is stored under.
    pub fn insert(&mut self, resource: T) -> (id: I)
        ensures
            id.index() == old(self).next_index(),
            final(self).next_index() == next_index(old(self).next_index()),
            final(self)@ == old(self)@.insert(id.index(), resource),
            old(self).fresh_ids() && old(self).next_index() < usize::MAX ==> {
                &&& !old(self)@.contains_key(id.index())
                &&& final(self).fresh_ids()
            },
    {
        let id: I = self.id_gen.next();
        self.map.insert(id.index_exec(), resource);
        id
    }
}

} // verus!

verus! {

/// What a read gives back of a write: when `insert` stores a resource in a map
/// whose ids are fresh, `get` with the returned id finds that resource, and
/// every resource stored before is still found under its own id.
pub proof fn law_get_after_insert<I: Id, T>(before: ResourceMap<I, T>, after: ResourceMap<I, T>, id: I, resource: T)
    requires
        before.fresh_ids(),
        before.next_index() < usize::MAX,
        id.index() == before.next_index(),
        after@ == before@.insert(id.index(), resource),
    ensures
        after@.contains_key(id.index()),
        after@[id.index()] == resource,
        forall|k: usize| #[trigger] before@.contains_key(k) ==> after@.contains_key(k) && after@[k] == before@[k],
{
    assert(!before@.contains_key(id.index()));
}

} // verus!
