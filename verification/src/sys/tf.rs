//! Transforms of entities placed in a space.
use vstd::prelude::*;
use std::collections::HashMap;

use super::Uid;
use super::delete::Delete;

verus! {

broadcast use vstd::std_specs::hash::group_hash_axioms;

/// The transform of each entity placed in a space.
#[derive(Debug)]
pub struct Space<M> {
    transforms: HashMap<Uid, M>,
}

impl<M> Space<M> {
    /// The transform of each entity.
    pub closed spec fn transforms(&self) -> Map<Uid, M> {
        self.transforms@
    }

    /// A space with no entities.
    pub fn new() -> (s: Self)
        ensures
            s.transforms() == Map::<Uid, M>::empty(),
    {
        Space { transforms: HashMap::new() }
    }

    /// Places `uid` with transform `matrix`, replacing any it had.
    pub fn insert(&mut self, uid: Uid, matrix: M)
        ensures
            final(self).transforms() == old(self).transforms().insert(uid, matrix),
    {
        self.transforms.insert(uid, matrix);
    }

    /// The transform of `uid`, if it is placed.
    pub fn get(&self, uid: &Uid) -> (r: Option<&M>)
        ensures
            match r {
                Some(m) => self.transforms().contains_key(*uid) && *m == self.transforms()[*uid],
                None => !self.transforms().contains_key(*uid),
            },
    {
        self.transforms.get(uid)
    }
}

impl<M> Default for Space<M> {
    fn default() -> (s: Self)
        ensures
            s.transforms() == Map::<Uid, M>::empty(),
    {
        Space::new()
    }
}

impl<M> Delete for Space<M> {
    open spec fn holds(&self, uid: Uid) -> bool {
        self.transforms().contains_key(uid)
    }

    open spec fn valid(&self) -> bool {
        true
    }

    open spec fn deletable(&self, uid: Uid) -> bool {
        true
    }

    open spec fn deletes(&self, uid: Uid, after: Self) -> bool {
        after.transforms() == self.transforms().remove(uid)
    }

    /// Forgets the transform of `uid`.
    fn delete(&mut self, uid: &Uid) {
        self.transforms.remove(uid);
    }
}

} // verus!
