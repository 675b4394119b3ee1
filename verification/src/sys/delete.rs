//! Deleting entities from systems, and keeping deletes pending for two
//! frames.
use vstd::prelude::*;
use std::collections::HashSet;

use super::Uid;
use vstd::std_specs::iter::IteratorSpec;

verus! {

broadcast use vstd::std_specs::hash::group_hash_axioms;

/// A system that holds per-entity state and can forget an entity.
pub trait Delete: Sized {
    /// Whether the system holds state for `uid`.
    spec fn holds(&self, uid: Uid) -> bool;

    /// The system's own consistency.
    spec fn valid(&self) -> bool;

    /// Whether the system can forget `uid` now.
    spec fn deletable(&self, uid: Uid) -> bool;

    /// Whether `after` is this system once it has forgotten `uid`.
    spec fn deletes(&self, uid: Uid, after: Self) -> bool;

    /// Forgets `uid` and nothing else; what could be forgotten before still
    /// can.
    fn delete(&mut self, uid: &Uid)
        requires
            old(self).valid(),
            old(self).deletable(*uid),
        ensures
            final(self).valid(),
            old(self).deletes(*uid, *final(self)),
            forall|u: Uid| #[trigger] final(self).holds(u) <==> (old(self).holds(u) && u != *uid),
            forall|u: Uid| #[trigger] old(self).deletable(u) ==> final(self).deletable(u),
    ;
}

/// Whether `states` goes from one state of a system to the next by one
/// delete of each id of `ids`, in order.
pub open spec fn deletes_in_order<D: Delete>(states: Seq<D>, ids: Seq<Uid>) -> bool {
    &&& states.len() == ids.len() + 1
    &&& forall|i: int| #![trigger ids[i]] 0 <= i < ids.len() ==> states[i].deletes(ids[i], states[i + 1])
}

/// Starting at the beginning of the previous frame
/// we delete all UIDs queued. This prevents skipping
/// deletes when systems are reordered.
///
/// `previous` holds the ids queued during the previous frame,
/// `current` those queued during the current frame.
#[derive(Debug, Default)]
pub struct DeleteQueue {
    previous: HashSet<Uid>,
    current: HashSet<Uid>,
}

impl DeleteQueue {
    /// Ids queued during the previous frame.
    pub closed spec fn previous(&self) -> Set<Uid> {
        self.previous@
    }

    /// Ids queued during the current frame.
    pub closed spec fn current(&self) -> Set<Uid> {
        self.current@
    }

    /// All ids whose deletion is still being applied.
    pub open spec fn pending(&self) -> Set<Uid> {
        self.previous().union(self.current())
    }

    pub fn new() -> (q: Self)
        ensures
            q.previous() == Set::<Uid>::empty(),
            q.current() == Set::<Uid>::empty(),
    {
        DeleteQueue { previous: HashSet::new(), current: HashSet::new() }
    }

    fn queue(&mut self, uid: Uid)
        ensures
            final(self).current() == old(self).current().insert(uid),
            final(self).previous() == old(self).previous(),
    {
        self.current.insert(uid);
    }

    /// Deletes `uid` from `system` now and queues it for the
    /// rest of this frame and the whole next frame.
    pub fn delete<D: Delete>(&mut self, system: &mut D, uid: Uid)
        requires
            old(system).valid(),
            old(system).deletable(uid),
        ensures
            final(system).valid(),
            old(system).deletes(uid, *final(system)),
            forall|u: Uid| #[trigger] final(system).holds(u) <==> (old(system).holds(u) && u != uid),
            final(self).current() == old(self).current().insert(uid),
            final(self).previous() == old(self).previous(),
    {
        system.delete(&uid);
        self.queue(uid);
    }

    /// Starts a new frame: what was queued during the previous frame is
    /// dropped, and what was queued during the current frame becomes the
    /// previous frame's queue.
    pub fn start_frame(&mut self)
        ensures
            final(self).previous() == old(self).current(),
            final(self).current() == Set::<Uid>::empty(),
    {
        self.previous.clear();
        std::mem::swap(&mut self.previous, &mut self.current);
    }

    /// Whether `ids` lists the pending ids as `iter` does: each id of the
    /// previous frame once, then each id of the current frame once.
    pub open spec fn lists_pending(&self, ids: Seq<Uid>) -> bool {
        let n = self.previous().len() as int;
        &&& ids.len() == self.previous().len() + self.current().len()
        &&& ids.take(n).no_duplicates()
        &&& ids.take(n).to_set() == self.previous()
        &&& ids.skip(n).no_duplicates()
        &&& ids.skip(n).to_set() == self.current()
    }

    /// Deletes from `system` each id that `iter` lists, one call each and in
    /// that order: those of the previous frame, then those of the current
    /// frame, so an id queued in both frames is deleted twice.
    pub fn apply<D: Delete>(&self, system: &mut D)
        requires
            old(system).valid(),
            forall|u: Uid| #[trigger] self.pending().contains(u) ==> old(system).deletable(u),
        ensures
            final(system).valid(),
            exists|ids: Seq<Uid>, states: Seq<D>| #![trigger self.lists_pending(ids), deletes_in_order(states, ids)] {
                &&& self.lists_pending(ids)
                &&& deletes_in_order(states, ids)
                &&& states[0] == *old(system)
                &&& states.last() == *final(system)
            },
            forall|u: Uid| #[trigger] final(system).holds(u)
                <==> (old(system).holds(u) && !self.pending().contains(u)),
    {
        let ids = self.iter();
        let ghost n = self.previous().len() as int;
        proof {
            assert forall|u: Uid| ids@.contains(u) implies #[trigger] self.pending().contains(u) by {
                let k = choose|k: int| 0 <= k < ids@.len() && ids@[k] == u;
                if k < n {
                    assert(ids@.take(n)[k] == u);
                    assert(ids@.take(n).to_set().contains(u));
                } else {
                    assert(ids@.skip(n)[k - n] == u);
                    assert(ids@.skip(n).to_set().contains(u));
                }
            }
            assert forall|u: Uid| #[trigger] self.pending().contains(u) implies ids@.contains(u) by {
                if self.previous().contains(u) {
                    assert(ids@.take(n).to_set().contains(u));
                    let k = choose|k: int| 0 <= k < ids@.take(n).len() && ids@.take(n)[k] == u;
                    assert(ids@[k] == u);
                } else {
                    assert(ids@.skip(n).to_set().contains(u));
                    let k = choose|k: int| 0 <= k < ids@.skip(n).len() && ids@.skip(n)[k] == u;
                    assert(ids@[n + k] == u);
                }
            }
        }
        let ghost mut states: Seq<D> = seq![*system];
        let mut i: usize = 0;
        while i < ids.len()
            invariant
                i <= ids@.len(),
                system.valid(),
                forall|u: Uid| #[trigger] system.holds(u)
                    <==> (old(system).holds(u) && !ids@.take(i as int).contains(u)),
                forall|u: Uid| #[trigger] ids@.contains(u) ==> self.pending().contains(u),
                forall|u: Uid| #[trigger] self.pending().contains(u) ==> system.deletable(u),
                states.len() == i + 1,
                states[0] == *old(system),
                states.last() == *system,
                forall|j: int| #![trigger ids@[j]] 0 <= j < i ==> states[j].deletes(ids@[j], states[j + 1]),
            decreases ids@.len() - i,
        {
            proof {
                let ghost a = ids@.take(i as int);
                let ghost b = ids@.take(i + 1);
                assert forall|u: Uid| b.contains(u) <==> (a.contains(u) || u == ids@[i as int]) by {
                    if b.contains(u) {
                        let k = choose|k: int| 0 <= k < b.len() && b[k] == u;
                        if k < i {
                            assert(a[k] == u);
                        }
                    }
                    if a.contains(u) {
                        let k = choose|k: int| 0 <= k < a.len() && a[k] == u;
                        assert(b[k] == u);
                    }
                    if u == ids@[i as int] {
                        assert(b[i as int] == u);
                    }
                }
            }
            assert(ids@.contains(ids@[i as int]));
            let ghost before = *system;
            system.delete(&ids[i]);
            proof {
                assert(states.last() == before);
                states = states.push(*system);
                assert forall|j: int| #![trigger ids@[j]] 0 <= j < i + 1 implies states[j].deletes(ids@[j], states[j + 1]) by {
                    if j == i {
                        assert(states[j] == before);
                    }
                }
            }
            i = i + 1;
        }
        proof {
            assert(ids@.take(ids@.len() as int) =~= ids@);
            assert(self.lists_pending(ids@));
            assert(deletes_in_order(states, ids@));
        }
    }

    /// The pending ids: those of the previous frame, then those of the
    /// current frame (each part in the sets' iteration order).
    pub fn iter(&self) -> (r: Vec<Uid>)
        ensures
            self.lists_pending(r@),
            r@.len() == self.previous().len() + self.current().len(),
            r@.take(self.previous().len() as int).no_duplicates(),
            r@.take(self.previous().len() as int).to_set() == self.previous(),
            r@.skip(self.previous().len() as int).no_duplicates(),
            r@.skip(self.previous().len() as int).to_set() == self.current(),
    {
        let mut r: Vec<Uid> = Vec::new();
        let ghost ps = self.previous.iter().remaining();
        for x in it: self.previous.iter()
            invariant
                it.seq() == ps,
                r@.len() == it.index(),
                forall|i: int| 0 <= i < it.index() ==> r@[i] == *ps[i],
        {
            r.push(*x);
        }
        assert(r@ =~= ps.unref());
        let ghost n = r@.len();
        let ghost cs = self.current.iter().remaining();
        for x in it: self.current.iter()
            invariant
                it.seq() == cs,
                r@.len() == n + it.index(),
                forall|i: int| 0 <= i < n ==> r@[i] == ps.unref()[i],
                forall|i: int| 0 <= i < it.index() ==> r@[n + i] == *cs[i],
        {
            r.push(*x);
        }
        assert(r@ =~= ps.unref() + cs.unref());
        assert(r@.take(n as int) =~= ps.unref());
        assert(r@.skip(n as int) =~= cs.unref());
        r
    }
}

/// An id deleted during a frame stays pending for the rest of that frame
/// and the whole next frame, and is no longer pending once the frame after
/// that starts, unless it was deleted again in the meantime.
///
/// `queued` is the queue right after the delete; `next` is the queue during
/// the next frame (after `start_frame`, with any later deletes of other
/// ids); `after` is the queue once the following frame starts.
pub proof fn lemma_pending_for_two_frames(queued: DeleteQueue, next: DeleteQueue, after: DeleteQueue, uid: Uid)
    requires
        queued.current().contains(uid),
        next.previous() == queued.current(),
        !next.current().contains(uid),
        after.previous() == next.current(),
        after.current() == Set::<Uid>::empty(),
    ensures
        queued.pending().contains(uid),
        next.pending().contains(uid),
        !after.pending().contains(uid),
{
}

} // verus!
