//! What an instance is drawn with, and what changed between two frames.
use vstd::prelude::*;

use vstd::std_specs::cmp::PartialEqSpec;
use std::collections::HashMap;

use crate::sys::Uid;
use super::Pixels;

verus! {

broadcast use vstd::std_specs::hash::group_hash_axioms;

/// A rectangle on screen: its corner and its size, per axis (0 across, 1 down).
#[derive(Debug, Clone, Copy, PartialEq, Eq)]
pub struct Rect {
    pub pos: [Pixels; 2],
    pub size: [Pixels; 2],
}

impl Default for Rect {
    fn default() -> (r: Self)
        ensures
            r.pos@ == seq![0u16, 0u16],
            r.size@ == seq![0u16, 0u16],
    {
        Rect { pos: [0, 0], size: [0, 0] }
    }
}

/// The shape an instance is drawn with.
#[derive(Debug, Clone, Copy)]
pub enum Geometry {
    Mesh(Uid),
    Quad,
}

/// What an instance is filled with.
#[derive(Debug, Clone, Copy)]
pub enum Fill {
    Texture(Uid),
    Blank,
}

impl PartialEq for Geometry {
    fn eq(&self, other: &Self) -> (r: bool) {
        match (self, other) {
            (Geometry::Mesh(a), Geometry::Mesh(b)) => *a == *b,
            (Geometry::Quad, Geometry::Quad) => true,
            _ => false,
        }
    }
}

impl Eq for Geometry {}

impl vstd::std_specs::cmp::PartialEqSpecImpl for Geometry {
    open spec fn obeys_eq_spec() -> bool {
        true
    }

    open spec fn eq_spec(&self, other: &Self) -> bool {
        *self == *other
    }
}

impl PartialEq for Fill {
    fn eq(&self, other: &Self) -> (r: bool) {
        match (self, other) {
            (Fill::Texture(a), Fill::Texture(b)) => *a == *b,
            (Fill::Blank, Fill::Blank) => true,
            _ => false,
        }
    }
}

impl Eq for Fill {}

impl vstd::std_specs::cmp::PartialEqSpecImpl for Fill {
    open spec fn obeys_eq_spec() -> bool {
        true
    }

    open spec fn eq_spec(&self, other: &Self) -> bool {
        *self == *other
    }
}

/// `None` where `rhs` equals `lhs`, else a copy of `rhs`.
pub fn diff<T: PartialEq + Clone>(lhs: &T, rhs: &T) -> (r: Option<T>)
    ensures
        diffs(*lhs, *rhs, r),
{
    if lhs == rhs {
        None
    } else {
        Some(rhs.clone())
    }
}

/// Whether `d` is what `diff` gives for `lhs` and `rhs`: nothing where
/// they are equal (for a type whose `==` is specified), else a clone of `rhs`.
pub open spec fn diffs<T: PartialEq + Clone>(lhs: T, rhs: T, d: Option<T>) -> bool {
    &&& T::obeys_eq_spec() ==> (d is None <==> lhs.eq_spec(&rhs))
    &&& d matches Some(v) ==> cloned(rhs, v)
}

/// One drawn instance: its transform of type `M`, its geometry, its fill and
/// its colour of type `C`.
#[derive(Debug, Clone, Copy)]
pub struct Instance<M, C>(pub M, pub Geometry, pub Fill, pub C);

/// What changed of an instance: each part, or nothing where it stayed.
#[derive(Debug, Clone, Copy)]
pub struct Diff2D<M, C>(pub Option<M>, pub Option<Geometry>, pub Option<Fill>, pub Option<C>);

/// The changes of a frame, by instance id, in the order they were drawn.
pub type Commands2D<M, C> = Vec<(Uid, Diff2D<M, C>)>;

impl<M: PartialEq + Clone, C: PartialEq + Clone> Instance<M, C> {
    /// What changed from this instance to `other`, part by part.
    pub fn diff(&self, other: &Self) -> (r: Diff2D<M, C>)
        ensures
            diffs(self.0, other.0, r.0),
            diffs(self.1, other.1, r.1),
            diffs(self.2, other.2, r.2),
            diffs(self.3, other.3, r.3),
    {
        Diff2D(diff(&self.0, &other.0), diff(&self.1, &other.1), diff(&self.2, &other.2), diff(&self.3, &other.3))
    }
}

/// The instances drawn in the previous frame and in this one, and the
/// changes of this frame.
#[derive(Debug)]
pub struct Draw2D<M, C> {
    previous: HashMap<Uid, Instance<M, C>>,
    state: HashMap<Uid, Instance<M, C>>,
    diff: Commands2D<M, C>,
}

impl<M, C> Draw2D<M, C> {
    /// The instances kept from the previous frame.
    pub closed spec fn previous(&self) -> Map<Uid, Instance<M, C>> {
        self.previous@
    }

    /// The instances kept for the next frame.
    pub closed spec fn state(&self) -> Map<Uid, Instance<M, C>> {
        self.state@
    }

    /// The changes of this frame, in the order they were drawn.
    pub closed spec fn commands(&self) -> Seq<(Uid, Diff2D<M, C>)> {
        self.diff@
    }

    /// Nothing drawn.
    pub fn new() -> (d: Self)
        ensures
            d.previous() == Map::<Uid, Instance<M, C>>::empty(),
            d.state() == Map::<Uid, Instance<M, C>>::empty(),
            d.commands() == Seq::<(Uid, Diff2D<M, C>)>::empty(),
    {
        Draw2D { previous: HashMap::new(), state: HashMap::new(), diff: Vec::new() }
    }

    /// Starts a new frame and hands out the changes of the one that ends:
    /// what was kept for the next frame becomes the previous frame.
    pub fn finish(&mut self) -> (r: Commands2D<M, C>)
        ensures
            r@ == old(self).commands(),
            final(self).previous() == old(self).state(),
            final(self).state() == Map::<Uid, Instance<M, C>>::empty(),
            final(self).commands() == Seq::<(Uid, Diff2D<M, C>)>::empty(),
    {
        self.previous.clear();
        std::mem::swap(&mut self.previous, &mut self.state);
        let mut r: Commands2D<M, C> = Vec::new();
        std::mem::swap(&mut r, &mut self.diff);
        r
    }
}

impl<M: PartialEq + Clone, C: PartialEq + Clone> Draw2D<M, C> {
    /// Draws `instance` as `uid`. Where the previous frame had `uid`, the
    /// change from it is recorded and the instance is kept for the next
    /// frame; else every part of the instance is recorded as changed.
    pub fn draw(&mut self, uid: Uid, instance: Instance<M, C>)
        ensures
            old(self).previous().contains_key(uid) ==> {
                let was = old(self).previous()[uid];
                let d = final(self).commands().last();
                &&& final(self).previous() == old(self).previous().remove(uid)
                &&& final(self).state() == old(self).state().insert(uid, instance)
                &&& final(self).commands().drop_last() == old(self).commands()
                &&& final(self).commands().len() == old(self).commands().len() + 1
                &&& d.0 == uid
                &&& diffs(was.0, instance.0, d.1.0)
                &&& diffs(was.1, instance.1, d.1.1)
                &&& diffs(was.2, instance.2, d.1.2)
                &&& diffs(was.3, instance.3, d.1.3)
            },
            !old(self).previous().contains_key(uid) ==> {
                &&& final(self).previous() == old(self).previous()
                &&& final(self).state() == old(self).state()
                &&& final(self).commands() == old(self).commands().push(
                    (uid, Diff2D(Some(instance.0), Some(instance.1), Some(instance.2), Some(instance.3))),
                )
            },
    {
        let d = match self.previous.remove(&uid) {
            Some(was) => {
                let d = was.diff(&instance);
                self.state.insert(uid, instance);
                d
            },
            None => Diff2D(Some(instance.0), Some(instance.1), Some(instance.2), Some(instance.3)),
        };
        self.diff.push((uid, d));
    }
}

impl<M, C> Default for Draw2D<M, C> {
    fn default() -> (d: Self)
        ensures
            d.previous() == Map::<Uid, Instance<M, C>>::empty(),
            d.state() == Map::<Uid, Instance<M, C>>::empty(),
            d.commands() == Seq::<(Uid, Diff2D<M, C>)>::empty(),
    {
        Draw2D::new()
    }
}

} // verus!
