//! Clay-inspired box layout in whole pixels: boxes are sized from their
//! children, leaves first.
use vstd::prelude::*;
use std::collections::HashMap;

use crate::game::tree::Tree;
use super::Uid;
use super::delete::Delete;
use super::gpu::Pixels;
use super::gpu::render2d::Rect;

verus! {

broadcast use vstd::std_specs::hash::group_hash_axioms;

/// How content is placed in its box.
#[derive(Debug, Clone, Copy, PartialEq, Eq)]
pub enum Align {
    Left,
    Center,
    Right,
}

/// The direction in which a box lays out its children.
#[derive(Debug, Clone, Copy, PartialEq, Eq)]
pub enum Direction {
    /// Left to right
    Right,
    /// Top to bottom
    Down,
}

/// A size along one axis: a number of pixels, or a ratio of type `R` of
/// the space around (which sizing by fit does not read).
#[derive(Debug, Clone, Copy)]
pub enum Size<R> {
    Fixed(Pixels),
    Ratio(R),
}

#[derive(Debug, Clone, Copy)]
pub enum Sizing<R> {
    /// Fit all children
    Fit,
    /// Fill space
    Fill,
    /// Fixed or relative size,
    Size(Size<R>),
}

#[derive(Debug, Clone, Copy)]
pub struct AxisSize<R> {
    pub min: Option<Size<R>>,
    pub max: Option<Size<R>>,
    pub sizing: Sizing<R>,
}

#[derive(Debug, Clone, Copy)]
pub struct BoxSize<R> {
    pub w: AxisSize<R>,
    pub h: AxisSize<R>,
}

#[derive(Debug, Clone, Copy, Default)]
pub struct Pad {
    pub up: Pixels,
    pub down: Pixels,
    pub left: Pixels,
    pub right: Pixels,
}

/// How a box is laid out.
#[derive(Debug, Clone, Copy)]
pub struct Lay<R> {
    pub size: BoxSize<R>,
    pub pad: Pad,
    pub gap: Pixels,
    pub align: Align,
    pub direction: Direction,
}

impl<R> Lay<R> {
    /// The same layout with a fixed width.
    pub fn fix_w(self, w: Pixels) -> (r: Self)
        ensures
            r.size.w.sizing == Sizing::<R>::Size(Size::Fixed(w)),
            r.size.w.min == self.size.w.min,
            r.size.w.max == self.size.w.max,
            r.size.h == self.size.h,
            r.pad == self.pad,
            r.gap == self.gap,
            r.align == self.align,
            r.direction == self.direction,
    {
        let mut r = self;
        r.size.w.sizing = Sizing::Size(Size::Fixed(w));
        r
    }

    /// The same layout with a fixed height.
    pub fn fix_h(self, h: Pixels) -> (r: Self)
        ensures
            r.size.h.sizing == Sizing::<R>::Size(Size::Fixed(h)),
            r.size.h.min == self.size.h.min,
            r.size.h.max == self.size.h.max,
            r.size.w == self.size.w,
            r.pad == self.pad,
            r.gap == self.gap,
            r.align == self.align,
            r.direction == self.direction,
    {
        let mut r = self;
        r.size.h.sizing = Sizing::Size(Size::Fixed(h));
        r
    }

    /// The same layout with a fixed width and height.
    pub fn fix_size(self, w: Pixels, h: Pixels) -> (r: Self)
        ensures
            r.size.w.sizing == Sizing::<R>::Size(Size::Fixed(w)),
            r.size.h.sizing == Sizing::<R>::Size(Size::Fixed(h)),
            r.size.w.min == self.size.w.min,
            r.size.w.max == self.size.w.max,
            r.size.h.min == self.size.h.min,
            r.size.h.max == self.size.h.max,
            r.pad == self.pad,
            r.gap == self.gap,
            r.align == self.align,
            r.direction == self.direction,
    {
        let mut r = self;
        r.size.w.sizing = Sizing::Size(Size::Fixed(w));
        r.size.h.sizing = Sizing::Size(Size::Fixed(h));
        r
    }
}

/// The sizing of `lay` along axis `a` (0 across, 1 down).
pub open spec fn sizing_of<R>(lay: Lay<R>, a: int) -> Sizing<R> {
    if a == 0 {
        lay.size.w.sizing
    } else {
        lay.size.h.sizing
    }
}

/// Whether `lay` fits its children along axis `a`.
pub open spec fn fits<R>(lay: Lay<R>, a: int) -> bool {
    sizing_of(lay, a) is Fit
}

/// The fixed size of `lay` along axis `a`; 0 unless it has one.
pub open spec fn fixed_of<R>(lay: Lay<R>, a: int) -> int {
    match sizing_of(lay, a) {
        Sizing::Size(Size::Fixed(x)) => x as int,
        _ => 0,
    }
}

/// The padding of `lay` along axis `a`: left and right, or up and down.
pub open spec fn pad_of<R>(lay: Lay<R>, a: int) -> int {
    if a == 0 {
        lay.pad.left + lay.pad.right
    } else {
        lay.pad.up + lay.pad.down
    }
}

/// Whether `lay` lays its children out along axis `a`.
pub open spec fn along<R>(lay: Lay<R>, a: int) -> bool {
    match lay.direction {
        Direction::Right => a == 0,
        Direction::Down => a == 1,
    }
}

/// The size of box `u` of `t` along axis `a`, with `k` levels of its
/// subtree to go. Where it fits its children: along its direction, the sum
/// of their sizes with its gap between each two of them; across it, the
/// largest of their sizes. Else its fixed size. Then its padding.
pub open spec fn fit_size<R>(t: Tree, lays: Map<Uid, Lay<R>>, u: Uid, a: int, k: nat) -> int
    decreases k, 0nat,
{
    let lay = lays[u];
    (if fits(lay, a) {
        if k == 0 {
            0
        } else if along(lay, a) {
            fit_sum(t, lays, t.children_of(Some(u)), a, (k - 1) as nat, lay.gap as int)
        } else {
            fit_max(t, lays, t.children_of(Some(u)), a, (k - 1) as nat)
        }
    } else {
        fixed_of(lay, a)
    }) + pad_of(lay, a)
}

/// The sum of the sizes of the boxes of `s` along axis `a`, with `gap`
/// between each two of them.
pub open spec fn fit_sum<R>(t: Tree, lays: Map<Uid, Lay<R>>, s: Seq<Uid>, a: int, k: nat, gap: int) -> int
    decreases k, s.len(),
{
    if s.len() == 0 {
        0
    } else {
        fit_sum(t, lays, s.drop_last(), a, k, gap) + fit_size(t, lays, s.last(), a, k)
            + (if s.len() > 1 { gap } else { 0 })
    }
}

/// The largest of the sizes of the boxes of `s` along axis `a`; 0 for none.
pub open spec fn fit_max<R>(t: Tree, lays: Map<Uid, Lay<R>>, s: Seq<Uid>, a: int, k: nat) -> int
    decreases k, s.len(),
{
    if s.len() == 0 {
        0
    } else {
        let m = fit_max(t, lays, s.drop_last(), a, k);
        let x = fit_size(t, lays, s.last(), a, k);
        if m < x { x } else { m }
    }
}

/// Sizes are never negative.
proof fn lemma_fit_nonneg<R>(t: Tree, lays: Map<Uid, Lay<R>>, u: Uid, a: int, k: nat)
    ensures
        fit_size(t, lays, u, a, k) >= 0,
    decreases k, 0nat,
{
    let lay = lays[u];
    if fits(lay, a) && k > 0 {
        lemma_fit_sum_nonneg(t, lays, t.children_of(Some(u)), a, (k - 1) as nat, lay.gap as int);
        lemma_fit_max_nonneg(t, lays, t.children_of(Some(u)), a, (k - 1) as nat);
    }
}

/// Sums of sizes are never negative.
proof fn lemma_fit_sum_nonneg<R>(t: Tree, lays: Map<Uid, Lay<R>>, s: Seq<Uid>, a: int, k: nat, gap: int)
    requires
        gap >= 0,
    ensures
        fit_sum(t, lays, s, a, k, gap) >= 0,
    decreases k, s.len(),
{
    if s.len() > 0 {
        lemma_fit_sum_nonneg(t, lays, s.drop_last(), a, k, gap);
        lemma_fit_nonneg(t, lays, s.last(), a, k);
    }
}

/// Largest sizes are never negative.
proof fn lemma_fit_max_nonneg<R>(t: Tree, lays: Map<Uid, Lay<R>>, s: Seq<Uid>, a: int, k: nat)
    ensures
        fit_max(t, lays, s, a, k) >= 0,
    decreases k, s.len(),
{
    if s.len() > 0 {
        lemma_fit_max_nonneg(t, lays, s.drop_last(), a, k);
    }
}

/// A first part of a list sums to no more than the whole list.
proof fn lemma_fit_sum_prefix<R>(t: Tree, lays: Map<Uid, Lay<R>>, s: Seq<Uid>, j: int, a: int, k: nat, gap: int)
    requires
        0 <= j <= s.len(),
        gap >= 0,
    ensures
        fit_sum(t, lays, s.take(j), a, k, gap) <= fit_sum(t, lays, s, a, k, gap),
    decreases s.len() - j,
{
    if j == s.len() {
        assert(s.take(j) =~= s);
    } else {
        lemma_fit_sum_prefix(t, lays, s, j + 1, a, k, gap);
        assert(s.take(j + 1).drop_last() =~= s.take(j));
        lemma_fit_nonneg(t, lays, s[j], a, k);
    }
}

/// With the whole subtree of `u` within reach, more levels change nothing.
proof fn lemma_fit_fuel<R>(t: Tree, lays: Map<Uid, Lay<R>>, u: Uid, a: int, k: nat, k2: nat)
    requires
        t.wf(),
        t.contains(u),
        t.deep_enough(u, k),
        k <= k2,
    ensures
        fit_size(t, lays, u, a, k) == fit_size(t, lays, u, a, k2),
    decreases k, 0nat,
{
    let cs = t.children_of(Some(u));
    if k == 0 {
        if cs.len() > 0 {
            assert(cs.contains(cs[0]));
            t.lemma_child_deep(u, k, cs[0]);
        }
        assert(cs =~= Seq::<Uid>::empty());
    } else {
        assert forall|i: int| 0 <= i < cs.len() implies #[trigger] t.contains(cs[i])
            && t.deep_enough(cs[i], (k - 1) as nat) by {
            assert(cs.contains(cs[i]));
            t.lemma_child_deep(u, k, cs[i]);
        }
        lemma_fit_sum_fuel(t, lays, cs, a, (k - 1) as nat, (k2 - 1) as nat, lays[u].gap as int);
        lemma_fit_max_fuel(t, lays, cs, a, (k - 1) as nat, (k2 - 1) as nat);
    }
}

/// With the whole subtrees of `s` within reach, more levels change nothing.
proof fn lemma_fit_sum_fuel<R>(t: Tree, lays: Map<Uid, Lay<R>>, s: Seq<Uid>, a: int, k: nat, k2: nat, gap: int)
    requires
        t.wf(),
        forall|i: int| 0 <= i < s.len() ==> #[trigger] t.contains(s[i]) && t.deep_enough(s[i], k),
        k <= k2,
    ensures
        fit_sum(t, lays, s, a, k, gap) == fit_sum(t, lays, s, a, k2, gap),
    decreases k, s.len(),
{
    if s.len() > 0 {
        assert forall|i: int| 0 <= i < s.drop_last().len() implies #[trigger] t.contains(s.drop_last()[i])
            && t.deep_enough(s.drop_last()[i], k) by {
            assert(s.drop_last()[i] == s[i]);
        }
        lemma_fit_sum_fuel(t, lays, s.drop_last(), a, k, k2, gap);
        assert(t.contains(s[s.len() - 1]));
        lemma_fit_fuel(t, lays, s.last(), a, k, k2);
    }
}

/// With the whole subtrees of `s` within reach, more levels change nothing.
proof fn lemma_fit_max_fuel<R>(t: Tree, lays: Map<Uid, Lay<R>>, s: Seq<Uid>, a: int, k: nat, k2: nat)
    requires
        t.wf(),
        forall|i: int| 0 <= i < s.len() ==> #[trigger] t.contains(s[i]) && t.deep_enough(s[i], k),
        k <= k2,
    ensures
        fit_max(t, lays, s, a, k) == fit_max(t, lays, s, a, k2),
    decreases k, s.len(),
{
    if s.len() > 0 {
        assert forall|i: int| 0 <= i < s.drop_last().len() implies #[trigger] t.contains(s.drop_last()[i])
            && t.deep_enough(s.drop_last()[i], k) by {
            assert(s.drop_last()[i] == s[i]);
        }
        lemma_fit_max_fuel(t, lays, s.drop_last(), a, k, k2);
        assert(t.contains(s[s.len() - 1]));
        lemma_fit_fuel(t, lays, s.last(), a, k, k2);
    }
}

/// Layout is not Rendering, the two passes cannot happen at once.
pub struct Layout<R> {
    tree: Tree,
    lay: HashMap<Uid, Lay<R>>,
    out: HashMap<Uid, Rect>,
}

impl<R> Layout<R> {
    /// The hierarchy of boxes.
    pub closed spec fn tree(&self) -> Tree {
        self.tree
    }

    /// How each box is laid out.
    pub closed spec fn lays(&self) -> Map<Uid, Lay<R>> {
        self.lay@
    }

    /// Where each box is and its size.
    pub closed spec fn rects(&self) -> Map<Uid, Rect> {
        self.out@
    }

    /// The hierarchy is well formed and every box in it has a layout and a
    /// rectangle.
    pub open spec fn wf(&self) -> bool {
        self.tree().wf()
    }

    /// Where a box inserted under `parent` goes: under `parent` if it is laid
    /// out, else among the roots.
    pub open spec fn place_of(&self, parent: Option<Uid>) -> Option<Uid> {
        match parent {
            Some(p) => if self.tree().contains(p) { Some(p) } else { None },
            None => None,
        }
    }

    /// The sizes that `run` gives the boxes of `s` along axis `a`, added up
    /// with `gap` between each two of them.
    pub open spec fn run_sum(&self, s: Seq<Uid>, a: int, gap: int) -> int
        decreases s.len(),
    {
        if s.len() == 0 {
            0
        } else {
            self.run_sum(s.drop_last(), a, gap) + self.size_after_run(s.last(), a)
                + (if s.len() > 1 { gap } else { 0 })
        }
    }

    /// The largest size that `run` gives a box of `s` along axis `a`; 0 for
    /// none.
    pub open spec fn run_max(&self, s: Seq<Uid>, a: int) -> int
        decreases s.len(),
    {
        if s.len() == 0 {
            0
        } else {
            let m = self.run_max(s.drop_last(), a);
            let x = self.size_after_run(s.last(), a);
            if m < x { x } else { m }
        }
    }

    /// The sizes that `run` gives, box by box: a box that fits its children
    /// is, along its direction, as long as they are together with its gap
    /// between each two of them, and across it as wide as the widest of
    /// them; a box of fixed size has that size, any other has none; then its
    /// padding is added: left and right to its width, up and down to its
    /// height.
    pub proof fn lemma_size_after_run(&self, u: Uid, a: int)
        requires
            self.wf(),
            self.tree().contains(u),
        ensures
            self.size_after_run(u, a) == (if fits(self.lays()[u], a) {
                if along(self.lays()[u], a) {
                    self.run_sum(self.tree().children_of(Some(u)), a, self.lays()[u].gap as int)
                } else {
                    self.run_max(self.tree().children_of(Some(u)), a)
                }
            } else {
                fixed_of(self.lays()[u], a)
            }) + pad_of(self.lays()[u], a),
            a == 0 ==> self.size_after_run(u, 0) == (match self.lays()[u].size.w.sizing {
                Sizing::Fit => match self.lays()[u].direction {
                    Direction::Right => self.run_sum(self.tree().children_of(Some(u)), 0, self.lays()[u].gap as int),
                    Direction::Down => self.run_max(self.tree().children_of(Some(u)), 0),
                },
                Sizing::Size(Size::Fixed(x)) => x as int,
                _ => 0,
            }) + self.lays()[u].pad.left + self.lays()[u].pad.right,
            a == 1 ==> self.size_after_run(u, 1) == (match self.lays()[u].size.h.sizing {
                Sizing::Fit => match self.lays()[u].direction {
                    Direction::Down => self.run_sum(self.tree().children_of(Some(u)), 1, self.lays()[u].gap as int),
                    Direction::Right => self.run_max(self.tree().children_of(Some(u)), 1),
                },
                Sizing::Size(Size::Fixed(y)) => y as int,
                _ => 0,
            }) + self.lays()[u].pad.up + self.lays()[u].pad.down,
    {
        let t = self.tree();
        let b = t.bound();
        let cs = t.children_of(Some(u));
        t.lemma_deep_enough_at_bound(u);
        if b == 0 {
            if cs.len() > 0 {
                assert(cs.contains(cs[0]));
                t.lemma_child_deep(u, 0, cs[0]);
            }
            assert(cs =~= Seq::<Uid>::empty());
        } else {
            assert forall|i: int| 0 <= i < cs.len() implies #[trigger] t.contains(cs[i])
                && t.deep_enough(cs[i], (b - 1) as nat) by {
                assert(cs.contains(cs[i]));
                t.lemma_child_deep(u, b, cs[i]);
            }
            self.lemma_run_fold(cs, a, (b - 1) as nat, self.lays()[u].gap as int);
        }
    }

    /// Over boxes whose subtrees are within `k + 1` levels of the bound,
    /// the sums and largest sizes with `k` levels are those that `run` gives.
    proof fn lemma_run_fold(&self, s: Seq<Uid>, a: int, k: nat, gap: int)
        requires
            self.wf(),
            k + 1 == self.tree().bound(),
            forall|i: int| 0 <= i < s.len() ==> #[trigger] self.tree().contains(s[i])
                && self.tree().deep_enough(s[i], k),
        ensures
            fit_sum(self.tree(), self.lays(), s, a, k, gap) == self.run_sum(s, a, gap),
            fit_max(self.tree(), self.lays(), s, a, k) == self.run_max(s, a),
        decreases s.len(),
    {
        if s.len() > 0 {
            assert forall|i: int| 0 <= i < s.drop_last().len() implies #[trigger] self.tree().contains(s.drop_last()[i])
                && self.tree().deep_enough(s.drop_last()[i], k) by {
                assert(s.drop_last()[i] == s[i]);
            }
            self.lemma_run_fold(s.drop_last(), a, k, gap);
            assert(self.tree().contains(s[s.len() - 1]));
            lemma_fit_fuel(self.tree(), self.lays(), s.last(), a, k, self.tree().bound());
        }
    }

    /// The size that `run` gives box `u` along axis `a`.
    pub open spec fn size_after_run(&self, u: Uid, a: int) -> int {
        fit_size(self.tree(), self.lays(), u, a, self.tree().bound())
    }

    /// No box fills, and every size fits in a `Pixels`.
    pub open spec fn runnable(&self) -> bool {
        forall|u: Uid| #[trigger] self.tree().contains(u) ==> {
            &&& self.lays().contains_key(u)
            &&& self.rects().contains_key(u)
            &&& !(sizing_of(self.lays()[u], 0) is Fill)
            &&& !(sizing_of(self.lays()[u], 1) is Fill)
            &&& self.size_after_run(u, 0) <= Pixels::MAX
            &&& self.size_after_run(u, 1) <= Pixels::MAX
        }
    }

    /// The size of box `u` along axis `a`, from the sizes its children have.
    fn axis_size(&self, u: Uid, a: usize) -> (r: Pixels)
        requires
            self.wf(),
            self.runnable(),
            self.tree().contains(u),
            a < 2,
            forall|c: Uid| #[trigger] self.tree().children_of(Some(u)).contains(c)
                ==> self.rects().contains_key(c) && self.rects()[c].size@[a as int] == self.size_after_run(c, a as int),
        ensures
            r == self.size_after_run(u, a as int),
    {
        let ghost t = self.tree();
        let ghost b = t.bound();
        let lay = self.lay.get(&u).unwrap();
        let children = self.tree.get_children(Some(&u)).unwrap();
        let ghost cs = children@;
        assert(cs == t.children_of(Some(u)));
        let sizing = if a == 0 { &lay.size.w.sizing } else { &lay.size.h.sizing };
        proof {
            lemma_fit_nonneg(t, self.lays(), u, a as int, b);
        }
        let base: Pixels = match sizing {
            Sizing::Fit => {
                let ghost kb: nat = if b == 0 { 0 } else { (b - 1) as nat };
                let gap = lay.gap;
                let is_along = match lay.direction {
                    Direction::Right => a == 0,
                    Direction::Down => a == 1,
                };
                proof {
                    t.lemma_deep_enough_at_bound(u);
                    if b == 0 && cs.len() > 0 {
                        assert(cs.contains(cs[0]));
                        t.lemma_child_deep(u, 0, cs[0]);
                    }
                    lemma_fit_sum_nonneg(t, self.lays(), cs, a as int, kb, gap as int);
                    lemma_fit_max_nonneg(t, self.lays(), cs, a as int, kb);
                }
                let mut acc: Pixels = 0;
                let mut j: usize = 0;
                assert(cs.take(0) =~= Seq::<Uid>::empty());
                while j < children.len()
                    invariant
                        self.wf(),
                        self.runnable(),
                        t == self.tree(),
                        b == t.bound(),
                        kb == if b == 0 { 0 } else { (b - 1) as nat },
                        t.contains(u),
                        a < 2,
                        children@ == cs,
                        cs == t.children_of(Some(u)),
                        b == 0 ==> cs.len() == 0,
                        fits(self.lays()[u], a as int),
                        is_along == along(self.lays()[u], a as int),
                        gap == self.lays()[u].gap,
                        is_along ==> self.size_after_run(u, a as int)
                            == fit_sum(t, self.lays(), cs, a as int, kb, gap as int) + pad_of(self.lays()[u], a as int),
                        !is_along ==> self.size_after_run(u, a as int)
                            == fit_max(t, self.lays(), cs, a as int, kb) + pad_of(self.lays()[u], a as int),
                        self.size_after_run(u, a as int) <= Pixels::MAX,
                        pad_of(self.lays()[u], a as int) >= 0,
                        forall|c: Uid| #[trigger] cs.contains(c)
                            ==> self.rects().contains_key(c) && self.rects()[c].size@[a as int] == self.size_after_run(c, a as int),
                        j <= cs.len(),
                        is_along ==> acc == fit_sum(t, self.lays(), cs.take(j as int), a as int, kb, gap as int),
                        !is_along ==> acc == fit_max(t, self.lays(), cs.take(j as int), a as int, kb),
                    decreases cs.len() - j,
                {
                    let c = children[j];
                    proof {
                        assert(cs.contains(c));
                        t.lemma_deep_enough_at_bound(u);
                        t.lemma_child_deep(u, b, c);
                        lemma_fit_fuel(t, self.lays(), c, a as int, kb, b);
                        assert(cs.take(j + 1).drop_last() =~= cs.take(j as int));
                        assert(cs.take(j + 1).last() == c);
                        lemma_fit_sum_prefix(t, self.lays(), cs, j + 1, a as int, kb, gap as int);
                        lemma_fit_sum_nonneg(t, self.lays(), cs.take(j as int), a as int, kb, gap as int);
                        lemma_fit_nonneg(t, self.lays(), c, a as int, kb);
                    }
                    let size = self.out.get(&c).unwrap().size[a];
                    if is_along {
                        if j > 0 {
                            acc = acc + gap;
                        }
                        acc = acc + size;
                    } else if acc < size {
                        acc = size;
                    }
                    j = j + 1;
                }
                assert(cs.take(j as int) =~= cs);
                acc
            },
            Sizing::Fill => {
                assert(false);
                0
            },
            Sizing::Size(Size::Fixed(x)) => *x,
            Sizing::Size(Size::Ratio(_)) => 0,
        };
        let pad = if a == 0 { lay.pad.left + lay.pad.right } else { lay.pad.up + lay.pad.down };
        base + pad
    }

    /// Sizes every box, each after its children: a box that fits its
    /// children is, along its direction, as long as they are together with
    /// its gap between each two of them, and across it as wide as the widest
    /// of them; a box of fixed size has that size, any other has none; each
    /// then adds its padding. Positions stay.
    pub fn run(&mut self)
        requires
            old(self).wf(),
            old(self).runnable(),
        ensures
            final(self).wf(),
            final(self).tree() == old(self).tree(),
            final(self).lays() == old(self).lays(),
            final(self).rects().dom() == old(self).rects().dom(),
            forall|u: Uid| #[trigger] old(self).tree().contains(u) ==> {
                &&& final(self).rects()[u].pos == old(self).rects()[u].pos
                &&& final(self).rects()[u].size@[0] == old(self).size_after_run(u, 0)
                &&& final(self).rects()[u].size@[1] == old(self).size_after_run(u, 1)
            },
            forall|u: Uid| #[trigger] old(self).rects().contains_key(u) && !old(self).tree().contains(u)
                ==> final(self).rects()[u] == old(self).rects()[u],
    {
        let ghost old_l = *self;
        let ghost t = self.tree();
        let order = self.tree.dfs_post();
        proof {
            t.lemma_walks_list_each_entity_once();
            t.lemma_walks_order_parents();
        }
        let ghost post = t.post_order();
        let mut i: usize = 0;
        while i < order.len()
            invariant
                self.wf(),
                self.runnable(),
                self.tree() == t,
                self.lays() == old_l.lays(),
                t == old_l.tree(),
                order@ == post,
                post == t.post_order(),
                post.no_duplicates(),
                post.to_set() == t.entities(),
                forall|x: int, y: int| #![trigger post[x], post[y]]
                    0 <= x < post.len() && 0 <= y < post.len() && t.parent_of(post[x]) == Some(post[y]) ==> x < y,
                i <= post.len(),
                self.rects().dom() == old_l.rects().dom(),
                forall|j: int| #![trigger post[j]] 0 <= j < i ==> {
                    &&& self.rects()[post[j]].pos == old_l.rects()[post[j]].pos
                    &&& self.rects()[post[j]].size@[0] == old_l.size_after_run(post[j], 0)
                    &&& self.rects()[post[j]].size@[1] == old_l.size_after_run(post[j], 1)
                },
                forall|u: Uid| #[trigger] self.rects().contains_key(u) && !post.take(i as int).contains(u)
                    ==> self.rects()[u] == old_l.rects()[u],
            decreases post.len() - i,
        {
            let u = order[i];
            proof {
                assert(post.to_set().contains(u));
                assert(t.contains(u));
                assert forall|c: Uid| #[trigger] t.children_of(Some(u)).contains(c) implies
                    self.rects().contains_key(c)
                    && self.rects()[c].size@[0] == self.size_after_run(c, 0)
                    && self.rects()[c].size@[1] == self.size_after_run(c, 1) by {
                    t.lemma_deep_enough_at_bound(u);
                    t.lemma_child_deep(u, t.bound(), c);
                    assert(t.entities().contains(c));
                    assert(post.to_set().contains(c));
                    let j = choose|j: int| 0 <= j < post.len() && post[j] == c;
                    assert(t.parent_of(post[j]) == Some(post[i as int]));
                }
            }
            let w = self.axis_size(u, 0);
            let h = self.axis_size(u, 1);
            let pos = self.out.get(&u).unwrap().pos;
            let ghost before = *self;
            self.out.insert(u, Rect { pos, size: [w, h] });
            proof {
                assert(post.take(i + 1) =~= post.take(i as int).push(u));
                assert forall|j: int| #![trigger post[j]] 0 <= j < i + 1 implies {
                    &&& self.rects()[post[j]].pos == old_l.rects()[post[j]].pos
                    &&& self.rects()[post[j]].size@[0] == old_l.size_after_run(post[j], 0)
                    &&& self.rects()[post[j]].size@[1] == old_l.size_after_run(post[j], 1)
                } by {
                    if j < i {
                        assert(post[j] != u);
                    } else {
                        assert(!post.take(i as int).contains(u)) by {
                            if post.take(i as int).contains(u) {
                                let k = choose|k: int| 0 <= k < i && post.take(i as int)[k] == u;
                                assert(post[k] == post[i as int]);
                            }
                        }
                    }
                }
                assert forall|v: Uid| #[trigger] self.rects().contains_key(v) && !post.take(i + 1).contains(v)
                    implies self.rects()[v] == old_l.rects()[v] by {
                    assert(v != u) by {
                        if v == u {
                            assert(post.take(i + 1)[i as int] == u);
                        }
                    }
                    assert(!post.take(i as int).contains(v)) by {
                        if post.take(i as int).contains(v) {
                            let k = choose|k: int| 0 <= k < i && post.take(i as int)[k] == v;
                            assert(post.take(i + 1)[k] == v);
                        }
                    }
                }
            }
            i = i + 1;
        }
        proof {
            assert forall|u: Uid| #[trigger] old_l.tree().contains(u) implies {
                &&& self.rects()[u].pos == old_l.rects()[u].pos
                &&& self.rects()[u].size@[0] == old_l.size_after_run(u, 0)
                &&& self.rects()[u].size@[1] == old_l.size_after_run(u, 1)
            } by {
                assert(t.entities().contains(u));
                assert(post.to_set().contains(u));
                let j = choose|j: int| 0 <= j < post.len() && post[j] == u;
            }
            assert forall|u: Uid| #[trigger] old_l.rects().contains_key(u) && !old_l.tree().contains(u)
                implies self.rects()[u] == old_l.rects()[u] by {
                assert(!post.take(i as int).contains(u)) by {
                    if post.take(i as int).contains(u) {
                        let k = choose|k: int| 0 <= k < i && post.take(i as int)[k] == u;
                        assert(post[k] == u);
                        assert(post.to_set().contains(u));
                    }
                }
            }
        }
    }

    /// No boxes.
    pub fn new() -> (l: Self)
        ensures
            l.wf(),
            l.tree().entities() == Set::<Uid>::empty(),
            l.lays() == Map::<Uid, Lay<R>>::empty(),
            l.rects() == Map::<Uid, Rect>::empty(),
    {
        Layout { tree: Tree::new(), lay: HashMap::new(), out: HashMap::new() }
    }

    /// Where box `uid` is and its size, if it is laid out.
    pub fn get_rect(&self, uid: &Uid) -> (r: Option<&Rect>)
        ensures
            match r {
                Some(rect) => self.rects().contains_key(*uid) && *rect == self.rects()[*uid],
                None => !self.rects().contains_key(*uid),
            },
    {
        self.out.get(uid)
    }

    /// The boxes, each after its children.
    pub fn render_order(&self) -> (r: Vec<Uid>)
        requires
            self.wf(),
        ensures
            r@ == self.tree().post_order(),
    {
        self.tree.dfs_post()
    }

    /// Adds box `uid` laid out by `lay` as the last child of `parent`, or as
    /// a root where `parent` is none or not laid out; a box already laid out
    /// moves there with its children, and gets `lay` and an empty rectangle.
    pub fn insert(&mut self, uid: Uid, lay: Lay<R>, parent: Option<Uid>)
        requires
            old(self).wf(),
            match parent {
                Some(p) => old(self).tree().contains(p) && old(self).tree().contains(uid)
                    ==> !old(self).tree().is_ancestor_or_self(uid, p),
                None => true,
            },
        ensures
            final(self).wf(),
            final(self).lays() == old(self).lays().insert(uid, lay),
            final(self).rects() == old(self).rects().insert(uid, Rect { pos: [0, 0], size: [0, 0] }),
            final(self).tree().entities() == old(self).tree().entities().insert(uid),
            final(self).tree().parent_of(uid) == match parent {
                Some(p) => if old(self).tree().contains(p) { Some(p) } else { None },
                None => None,
            },
            forall|u: Uid| #[trigger] old(self).tree().contains(u) && u != uid
                ==> final(self).tree().parent_of(u) == old(self).tree().parent_of(u),
            forall|q: Option<Uid>| #[trigger] final(self).tree().is_place(q) && (q != Some(uid) || old(self).tree().contains(uid))
                ==> final(self).tree().children_of(q) == old(self).tree().moved_children(q, uid, old(self).place_of(parent), None),
            !old(self).tree().contains(uid) ==> final(self).tree().children_of(Some(uid)) == Seq::<Uid>::empty(),
            final(self).tree().children_of(old(self).place_of(parent)).last() == uid,
    {
        let ghost old_l = *self;
        self.lay.insert(uid, lay);
        self.out.insert(uid, Rect { pos: [0, 0], size: [0, 0] });
        let parent = match parent {
            Some(p) => if self.tree.get_children(Some(&p)).is_some() { Some(p) } else { None },
            None => None,
        };
        proof {
            if let Some(p) = parent {
                if !self.tree().contains(uid) && self.tree().is_ancestor_or_self(uid, p) {
                    self.tree().lemma_ancestors_in(p, uid, self.tree().bound());
                }
            }
        }
        self.tree.parent(uid, parent, None);
    }
}

impl<R> Default for Layout<R> {
    fn default() -> (l: Self)
        ensures
            l.wf(),
            l.tree().entities() == Set::<Uid>::empty(),
            l.lays() == Map::<Uid, Lay<R>>::empty(),
            l.rects() == Map::<Uid, Rect>::empty(),
    {
        Layout::new()
    }
}

impl<R> Delete for Layout<R> {
    open spec fn holds(&self, uid: Uid) -> bool {
        self.lays().contains_key(uid) || self.rects().contains_key(uid)
    }

    open spec fn valid(&self) -> bool {
        self.wf()
    }

    open spec fn deletable(&self, uid: Uid) -> bool {
        true
    }

    /// The box's layout and rectangle go; the hierarchy stays as it was.
    open spec fn deletes(&self, uid: Uid, after: Self) -> bool {
        &&& after.lays() == self.lays().remove(uid)
        &&& after.rects() == self.rects().remove(uid)
        &&& after.tree() == self.tree()
    }

    /// Forgets the layout and the rectangle of box `uid`. The box stays in
    /// the hierarchy, so `run` cannot be called again until it is laid out
    /// anew.
    fn delete(&mut self, uid: &Uid) {
        self.lay.remove(uid);
        self.out.remove(uid);
    }
}

} // verus!
