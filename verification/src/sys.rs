//! Entity ids and the systems that hold per-entity state.
use vstd::prelude::*;
use std::collections::{HashMap, HashSet};
use rand::rngs::ThreadRng;
use rand::RngCore;
use vstd::std_specs::iter::IteratorSpec;

pub mod delete;
pub mod gpu;
pub mod gui;
pub mod map;
pub mod tf;
pub mod tree;

use self::delete::Delete;

verus! {

broadcast use vstd::std_specs::hash::group_hash_axioms;

/// The id of an entity.
pub type Uid = u64;

/// A set of entities.
pub type Entities = HashSet<Uid>;

/// A component value per entity.
pub type Components<C> = HashMap<Uid, C>;

/// `rand::rngs::ThreadRng`, the thread-local random generator.
#[verifier::external_type_specification]
#[verifier::external_body]
pub struct ExThreadRng(ThreadRng);

/// Calls `rand::rng`, the thread-local random generator.
/// Nothing is claimed of the generator.
#[verifier::external_body]
fn thread_rng() -> (rng: ThreadRng) {
    rand::rng()
}

/// Calls `RngCore::next_u64` on the thread-local generator.
/// The number is random: nothing is claimed of it.
#[verifier::external_body]
fn next_u64(rng: &mut ThreadRng) -> (r: u64) {
    rng.next_u64()
}

/// The view of a `HashSet` of ids is finite: it is the set of what
/// its iterator yields.
pub proof fn lemma_id_set_finite(s: &HashSet<Uid>)
    ensures
        s@.finite(),
{
    broadcast use vstd::seq_lib::seq_to_set_is_finite;
    let it = vstd::std_specs::hash::spec_hash_keys_iter(s);
    assert(it.remaining().unref().to_set() == s@);
}

/// The set of live entity ids, with the generator that draws new ones.
#[derive(Debug)]
pub struct Uids {
    ids: HashSet<Uid>,
    rng: ThreadRng,
}

impl Uids {
    /// The live ids.
    pub closed spec fn ids(&self) -> Set<Uid> {
        self.ids@
    }

    pub fn new() -> (u: Self)
        ensures
            u.ids() == Set::<Uid>::empty(),
    {
        Uids { ids: HashSet::new(), rng: thread_rng() }
    }

    /// Whether `uid` is live.
    pub fn contains(&self, uid: &Uid) -> (r: bool)
        ensures
            r == self.ids().contains(*uid),
    {
        self.ids.contains(uid)
    }

    /// The number of live ids.
    pub fn len(&self) -> (r: usize)
        ensures
            r == self.ids().len(),
    {
        self.ids.len()
    }

    /// An id that is not live: `candidate` itself when it is free, else the
    /// least free id.
    pub fn fresh(&self, candidate: Uid) -> (uid: Uid)
        ensures
            !self.ids().contains(uid),
            !self.ids().contains(candidate) ==> uid == candidate,
            self.ids().contains(candidate) ==> forall|v: Uid| v < uid ==> self.ids().contains(v),
    {
        if !self.ids.contains(&candidate) {
            return candidate;
        }
        proof { lemma_id_set_finite(&self.ids); }
        let mut k: u64 = 0;
        let ghost mut seen: Set<Uid> = Set::empty();
        while self.ids.contains(&k)
            invariant
                seen.finite(),
                seen.len() == k,
                forall|v: Uid| #[trigger] seen.contains(v) <==> v < k,
                forall|v: Uid| v < k ==> self.ids().contains(v),
                self.ids().finite(),
                self.ids().len() == self.ids.len(),
            decreases self.ids().len() - k,
        {
            proof {
                assert(!seen.contains(k));
                let next = seen.insert(k);
                assert(next.subset_of(self.ids()));
                vstd::set_lib::lemma_len_subset(next, self.ids());
                seen = next;
            }
            k = k + 1;
        }
        k
    }

    /// Draws a new id, records it as live and returns it.
    pub fn add(&mut self) -> (uid: Uid)
        ensures
            !old(self).ids().contains(uid),
            final(self).ids() == old(self).ids().insert(uid),
    {
        let candidate = next_u64(&mut self.rng);
        let uid = self.fresh(candidate);
        self.ids.insert(uid);
        uid
    }
}

impl Delete for Uids {
    open spec fn holds(&self, uid: Uid) -> bool {
        self.ids().contains(uid)
    }

    open spec fn valid(&self) -> bool {
        true
    }

    open spec fn deletable(&self, uid: Uid) -> bool {
        true
    }

    open spec fn deletes(&self, uid: Uid, after: Self) -> bool {
        after.ids() == self.ids().remove(uid)
    }

    fn delete(&mut self, uid: &Uid) {
        self.ids.remove(uid);
    }
}

} // verus!
