//! Containers that hold the elements of one component for a group.
use vstd::prelude::*;
use std::ops::Range;
use bitvec::vec::BitVec;

verus! {

broadcast use {vstd::seq_lib::group_to_multiset_ensures, vstd::multiset::group_multiset_axioms};

/// `s` with its element at `i` replaced by its last element, and the last
/// slot dropped.
pub open spec fn swap_removed<T>(s: Seq<T>, i: int) -> Seq<T> {
    s.update(i, s.last()).drop_last()
}

/// `s` once the elements at `end - 1`, `end - 2`, ..., `start` have been
/// swap-removed in that order.
pub open spec fn swap_deleted<T>(s: Seq<T>, start: int, end: int) -> Seq<T>
    decreases end - start,
{
    if end <= start {
        s
    } else {
        swap_removed(swap_deleted(s, start + 1, end), start)
    }
}

/// Swap-removing an element takes exactly that element out.
pub proof fn lemma_swap_removed<T>(t: Seq<T>, i: int)
    requires
        0 <= i < t.len(),
    ensures
        swap_removed(t, i).len() == t.len() - 1,
        swap_removed(t, i).to_multiset().insert(t[i]) =~= t.to_multiset(),
        forall|j: int| 0 <= j < i ==> swap_removed(t, i)[j] == t[j],
{
    let l = t.last();
    let ti = t[i];
    let m = t.to_multiset();
    let u = t.update(i, l);
    assert(u.len() == t.len());
    let d = u.drop_last();
    assert(d.push(u.last()) =~= u);
    vstd::seq_lib::to_multiset_build(d, u.last());
    vstd::seq_lib::to_multiset_update(t, i, l);
    assert(u.last() == l);
    assert(u.to_multiset() == m.insert(l).remove(ti));
    assert(d.to_multiset().insert(l) == m.insert(l).remove(ti));
    assert(m.count(ti) > 0) by {
        assert(t.contains(ti));
    }
    assert forall|x: T| #[trigger] d.to_multiset().insert(ti).count(x) == m.count(x) by {
        assert(d.to_multiset().insert(l).count(x) == m.insert(l).remove(ti).count(x));
    }
}

/// Deleting a range by swap removal takes out exactly the elements of the
/// range and keeps the elements before it in place.
pub proof fn lemma_swap_deleted<T>(s: Seq<T>, start: int, end: int)
    requires
        0 <= start <= end <= s.len(),
    ensures
        swap_deleted(s, start, end).len() == s.len() - (end - start),
        swap_deleted(s, start, end).to_multiset().add(s.subrange(start, end).to_multiset())
            =~= s.to_multiset(),
        forall|j: int| 0 <= j < start ==> swap_deleted(s, start, end)[j] == s[j],
    decreases end - start,
{
    if start < end {
        lemma_swap_deleted(s, start + 1, end);
        let t = swap_deleted(s, start + 1, end);
        assert(t[start] == s[start]) by {
            if end - (start + 1) > 0 {
                assert(t.len() == s.len() - (end - start - 1));
            }
        }
        lemma_swap_removed(t, start);
        assert(s.subrange(start, end) =~= seq![s[start]] + s.subrange(start + 1, end));
        vstd::seq_lib::lemma_multiset_commutative(seq![s[start]], s.subrange(start + 1, end));
        assert(seq![s[start]] =~= Seq::<T>::empty().push(s[start]));
        vstd::seq_lib::to_multiset_build(Seq::<T>::empty(), s[start]);
    } else {
        assert(s.subrange(start, end) =~= Seq::<T>::empty());
    }
}

/// Deleting a range by swap removal, from its last index to its first,
/// moves the last `end - start` items into the range in their order, where
/// at least that many items follow the range: the swapped chunk keeps its
/// ordering.
pub proof fn lemma_swap_deleted_keeps_chunk_order<T>(s: Seq<T>, start: int, end: int)
    requires
        0 <= start <= end <= s.len(),
        s.len() - end >= end - start,
    ensures
        swap_deleted(s, start, end)
            == s.take(start) + s.skip(s.len() - (end - start)) + s.subrange(end, s.len() - (end - start)),
    decreases end - start,
{
    let n = s.len() as int;
    let k = end - start;
    if k == 0 {
        assert(s.take(start) + s.skip(n) + s.subrange(end, n) =~= s);
    } else {
        lemma_swap_deleted_keeps_chunk_order(s, start + 1, end);
        let u = swap_deleted(s, start + 1, end);
        assert(u =~= s.take(start + 1) + s.skip(n - (k - 1)) + s.subrange(end, n - (k - 1)));
        assert(u.last() == s[n - k]);
        let r = swap_removed(u, start);
        assert(r =~= s.take(start) + s.skip(n - k) + s.subrange(end, n - k));
    }
}

/// Storage for one component of a group of entities.
pub trait Container {
    type Ref<'a> where Self: 'a;
    type Mut<'a> where Self: 'a;
    type Item;

    /// The items held, in order.
    spec fn items(&self) -> Seq<Self::Item>;

    /// Whether `delete` may be called with `range`.
    spec fn deletable(&self, range: Range<usize>) -> bool;

    /// Whether `n` more items can be pushed.
    spec fn room_for(&self, n: nat) -> bool;

    /// Whether `r` shows the items of `self`.
    spec fn shows<'a>(&self, r: Self::Ref<'a>) -> bool;

    /// Whether `r` starts out showing the items of `self`.
    spec fn shows_mut<'a>(&self, r: Self::Mut<'a>) -> bool;

    /// A shared view of the items.
    fn as_ref(&self) -> (r: Self::Ref<'_>)
        ensures
            self.shows(r),
    ;

    /// A mutable view of the items.
    fn as_mut(&mut self) -> (r: Self::Mut<'_>)
        ensures
            old(self).shows_mut(r),
    ;

    /// Deletes the items in `range`.
    fn delete(&mut self, range: Range<usize>)
        requires
            old(self).deletable(range),
    ;

    /// Adds an item at the end.
    fn push(&mut self, item: Self::Item)
        requires
            old(self).room_for(1),
    ;
}

/// The number of indices in `range`.
pub open spec fn range_len(range: Range<usize>) -> nat {
    if range.start < range.end {
        (range.end - range.start) as nat
    } else {
        0
    }
}

/// Containers that can make default items.
pub trait ContainerDefault: Container {
    /// Adds one default item for each index of `range`.
    fn new(&mut self, range: Range<usize>)
        requires
            old(self).room_for(range_len(range)),
    ;
}

/// A container that holds a single value shared by the whole group.
#[derive(Debug, Default)]
pub struct One<T: 'static>(pub T);

impl Container for () {
    type Ref<'a> = ();
    type Mut<'a> = ();
    type Item = ();

    open spec fn items(&self) -> Seq<()> {
        Seq::empty()
    }

    open spec fn room_for(&self, n: nat) -> bool {
        true
    }

    open spec fn deletable(&self, range: Range<usize>) -> bool {
        true
    }

    open spec fn shows<'a>(&self, r: ()) -> bool {
        true
    }

    open spec fn shows_mut<'a>(&self, r: ()) -> bool {
        true
    }

    fn as_ref(&self) -> Self::Ref<'_> {
    }

    fn as_mut(&mut self) -> Self::Mut<'_> {
    }

    fn delete(&mut self, range: Range<usize>) {
    }

    fn push(&mut self, item: ()) {
    }
}

impl ContainerDefault for () {
    fn new(&mut self, range: Range<usize>) {
    }
}

impl<T: 'static> Container for One<T> {
    type Ref<'a> = &'a T;
    type Mut<'a> = &'a mut T;
    type Item = T;

    open spec fn items(&self) -> Seq<T> {
        seq![self.0]
    }

    open spec fn room_for(&self, n: nat) -> bool {
        true
    }

    open spec fn deletable(&self, range: Range<usize>) -> bool {
        true
    }

    open spec fn shows<'a>(&self, r: &'a T) -> bool {
        *r == self.0
    }

    open spec fn shows_mut<'a>(&self, r: &'a mut T) -> bool {
        *r == self.0
    }

    fn as_ref(&self) -> Self::Ref<'_> {
        &self.0
    }

    fn as_mut(&mut self) -> (r: Self::Mut<'_>)
        ensures
            final(self).0 == *final(r),
    {
        &mut self.0
    }

    /// The single value stays.
    fn delete(&mut self, range: Range<usize>)
        ensures
            final(self).0 == old(self).0,
    {
    }

    /// The single value stays; `item` is dropped.
    fn push(&mut self, item: T)
        ensures
            final(self).0 == old(self).0,
    {
    }
}

impl<T: 'static> ContainerDefault for One<T> {
    fn new(&mut self, range: Range<usize>)
        ensures
            final(self).0 == old(self).0,
    {
    }
}

impl<T: 'static> Container for Option<T> {
    type Ref<'a> = Option<&'a T>;
    type Mut<'a> = Option<&'a mut T>;
    type Item = T;

    open spec fn items(&self) -> Seq<T> {
        match self {
            Some(t) => seq![*t],
            None => Seq::empty(),
        }
    }

    open spec fn room_for(&self, n: nat) -> bool {
        true
    }

    open spec fn deletable(&self, range: Range<usize>) -> bool {
        true
    }

    open spec fn shows<'a>(&self, r: Option<&'a T>) -> bool {
        match r {
            Some(t) => *self == Some(*t),
            None => *self is None,
        }
    }

    open spec fn shows_mut<'a>(&self, r: Option<&'a mut T>) -> bool {
        match r {
            Some(t) => *self == Some(*t),
            None => *self is None,
        }
    }

    fn as_ref(&self) -> Self::Ref<'_> {
        match self {
            Some(t) => Some(t),
            None => None,
        }
    }

    fn as_mut(&mut self) -> (r: Self::Mut<'_>)
        ensures
            match r {
                Some(t) => *final(self) == Some(*final(t)),
                None => *final(self) is None,
            },
    {
        match self {
            Some(t) => Some(t),
            None => None,
        }
    }

    /// The value stays.
    fn delete(&mut self, range: Range<usize>)
        ensures
            *final(self) == *old(self),
    {
    }

    /// The value stays; `item` is dropped.
    fn push(&mut self, item: T)
        ensures
            *final(self) == *old(self),
    {
    }
}

impl<T: 'static> ContainerDefault for Option<T> {
    fn new(&mut self, range: Range<usize>)
        ensures
            *final(self) == *old(self),
    {
    }
}

impl<T: 'static> Container for Vec<T> {
    type Ref<'a> = &'a [T];
    type Mut<'a> = &'a mut [T];
    type Item = T;

    open spec fn items(&self) -> Seq<T> {
        self@
    }

    open spec fn room_for(&self, n: nat) -> bool {
        true
    }

    /// An empty range, or one that ends within the items.
    open spec fn deletable(&self, range: Range<usize>) -> bool {
        range.end <= range.start || range.end <= self@.len()
    }

    open spec fn shows<'a>(&self, r: &'a [T]) -> bool {
        r@ == self@
    }

    open spec fn shows_mut<'a>(&self, r: &'a mut [T]) -> bool {
        r@ == self@
    }

    fn as_ref(&self) -> Self::Ref<'_> {
        self.as_slice()
    }

    fn as_mut(&mut self) -> Self::Mut<'_> {
        self.as_mut_slice()
    }

    /// Swap-removes the items of `range`, from the last index to the first,
    /// so that the items moved into the range keep their order.
    fn delete(&mut self, range: Range<usize>)
        ensures
            final(self)@ == swap_deleted(old(self)@, range.start as int, range.end as int),
    {
        let start = range.start;
        let end = range.end;
        if end <= start {
            return;
        }
        let mut i = end;
        while i > start
            invariant
                start <= i <= end,
                end <= old(self)@.len(),
                self@.len() == old(self)@.len() - (end - i),
                self@ == swap_deleted(old(self)@, i as int, end as int),
            decreases i,
        {
            i = i - 1;
            self.swap_remove(i);
        }
    }

    fn push(&mut self, item: T)
        ensures
            final(self)@ == old(self)@.push(item),
    {
        self.push(item);
    }
}

impl<T: 'static + Default> ContainerDefault for Vec<T> {
    /// Pushes `T::default()` once per index of `range`.
    fn new(&mut self, range: Range<usize>)
        ensures
            final(self)@.len() == old(self)@.len() + if range.start < range.end {
                range.end - range.start
            } else {
                0
            },
            final(self)@.subrange(0, old(self)@.len() as int) == old(self)@,
            forall|j: int| old(self)@.len() <= j < final(self)@.len()
                ==> call_ensures(T::default, (), #[trigger] final(self)@[j]),
    {
        let mut i = range.start;
        while i < range.end
            invariant
                range.start <= i || range.end <= range.start,
                i <= range.end || range.end <= range.start,
                range.start < range.end ==> self@.len() == old(self)@.len() + (i - range.start),
                range.start >= range.end ==> self@.len() == old(self)@.len(),
                range.start >= range.end ==> i == range.start,
                self@.subrange(0, old(self)@.len() as int) == old(self)@,
                forall|j: int| old(self)@.len() <= j < self@.len()
                    ==> call_ensures(T::default, (), #[trigger] self@[j]),
            decreases range.end - i,
        {
            self.push(T::default());
            i = i + 1;
        }
    }
}

/// A bit-vector (`bitvec`'s `BitVec`) used as a container of flags.
#[verifier::external_body]
pub struct Bits {
    bits: BitVec,
}

/// The bits held, in order.
pub uninterp spec fn bits_of(b: Bits) -> Seq<bool>;

/// The most bits a bit-vector can hold: `BitSlice::MAX_BITS`, all of
/// `usize` but its three top bits.
pub open spec fn max_bits() -> nat {
    (usize::MAX / 8) as nat
}

/// Calls `BitVec::new`, which makes an empty bit-vector.
#[verifier::external_body]
fn bits_new() -> (b: Bits)
    ensures
        bits_of(b).len() == 0,
{
    Bits { bits: BitVec::new() }
}

/// Calls `BitVec::len`, the number of bits held.
#[verifier::external_body]
fn bits_len(b: &Bits) -> (r: usize)
    ensures
        r == bits_of(*b).len(),
{
    b.bits.len()
}

/// Calls `BitSlice::get` and reads the bit at `index`, if there is one.
#[verifier::external_body]
fn bits_get(b: &Bits, index: usize) -> (r: Option<bool>)
    ensures
        index < bits_of(*b).len() ==> r == Some(bits_of(*b)[index as int]),
        index >= bits_of(*b).len() ==> r is None,
{
    match b.bits.get(index) {
        Some(bit) => Some(*bit),
        None => None,
    }
}

/// Calls `BitSlice::set`, which writes `value` at `index`.
#[verifier::external_body]
fn bits_set(b: &mut Bits, index: usize, value: bool)
    requires
        index < bits_of(*old(b)).len(),
    ensures
        bits_of(*final(b)) == bits_of(*old(b)).update(index as int, value),
{
    b.bits.set(index, value)
}

/// Calls `BitVec::swap_remove`, which takes out the bit at `index`, moves
/// the last bit into its place and returns the bit taken out.
#[verifier::external_body]
fn bits_swap_remove(b: &mut Bits, index: usize) -> (r: bool)
    requires
        index < bits_of(*old(b)).len(),
    ensures
        r == bits_of(*old(b))[index as int],
        bits_of(*final(b)) == swap_removed(bits_of(*old(b)), index as int),
{
    b.bits.swap_remove(index)
}

/// Calls `BitVec::push`, which appends `bit`; it panics beyond `max_bits`.
#[verifier::external_body]
fn bits_push(b: &mut Bits, bit: bool)
    requires
        bits_of(*old(b)).len() < max_bits(),
    ensures
        bits_of(*final(b)) == bits_of(*old(b)).push(bit),
{
    b.bits.push(bit)
}

impl Bits {
    /// No bits.
    pub fn new() -> (b: Self)
        ensures
            bits_of(b).len() == 0,
    {
        bits_new()
    }

    /// The number of bits held.
    pub fn len(&self) -> (r: usize)
        ensures
            r == bits_of(*self).len(),
    {
        bits_len(self)
    }

    /// The bit at `index`, if there is one.
    pub fn get(&self, index: usize) -> (r: Option<bool>)
        ensures
            index < bits_of(*self).len() ==> r == Some(bits_of(*self)[index as int]),
            index >= bits_of(*self).len() ==> r is None,
    {
        bits_get(self, index)
    }

    /// Writes `value` at `index`, which must hold a bit.
    pub fn set(&mut self, index: usize, value: bool)
        requires
            index < bits_of(*old(self)).len(),
        ensures
            bits_of(*final(self)) == bits_of(*old(self)).update(index as int, value),
    {
        bits_set(self, index, value)
    }
}

impl Container for Bits {
    type Ref<'a> = &'a Bits;
    type Mut<'a> = &'a mut Bits;
    type Item = bool;

    open spec fn items(&self) -> Seq<bool> {
        bits_of(*self)
    }

    /// An empty range, or one that ends within the bits.
    open spec fn deletable(&self, range: Range<usize>) -> bool {
        range.end <= range.start || range.end <= bits_of(*self).len()
    }

    open spec fn room_for(&self, n: nat) -> bool {
        bits_of(*self).len() + n <= max_bits()
    }

    open spec fn shows<'a>(&self, r: &'a Bits) -> bool {
        bits_of(*r) == bits_of(*self)
    }

    open spec fn shows_mut<'a>(&self, r: &'a mut Bits) -> bool {
        bits_of(*r) == bits_of(*self)
    }

    fn as_ref(&self) -> Self::Ref<'_> {
        self
    }

    fn as_mut(&mut self) -> (r: Self::Mut<'_>)
        ensures
            bits_of(*final(self)) == bits_of(*final(r)),
    {
        self
    }

    /// Swap-removes the bits of `range`, from the last index to the first,
    /// so that the bits moved into the range keep their order.
    fn delete(&mut self, range: Range<usize>)
        ensures
            bits_of(*final(self)) == swap_deleted(bits_of(*old(self)), range.start as int, range.end as int),
    {
        let start = range.start;
        let end = range.end;
        if end <= start {
            return;
        }
        let mut i = end;
        while i > start
            invariant
                start <= i <= end,
                end <= bits_of(*old(self)).len(),
                bits_of(*self).len() == bits_of(*old(self)).len() - (end - i),
                bits_of(*self) == swap_deleted(bits_of(*old(self)), i as int, end as int),
            decreases i,
        {
            i = i - 1;
            bits_swap_remove(self, i);
        }
    }

    fn push(&mut self, item: bool)
        ensures
            bits_of(*final(self)) == bits_of(*old(self)).push(item),
    {
        bits_push(self, item);
    }
}

impl ContainerDefault for Bits {
    /// Pushes a cleared bit once per index of `range`.
    fn new(&mut self, range: Range<usize>)
        ensures
            bits_of(*final(self)) == bits_of(*old(self)) + Seq::new(range_len(range), |j: int| false),
    {
        let mut i = range.start;
        let ghost added: nat = 0;
        while i < range.end
            invariant
                range.start <= i || range.end <= range.start,
                i <= range.end || range.end <= range.start,
                range.start >= range.end ==> i == range.start,
                bits_of(*old(self)).len() + range_len(range) <= max_bits(),
                range.start < range.end ==> bits_of(*self) == bits_of(*old(self))
                    + Seq::new((i - range.start) as nat, |j: int| false),
                range.start >= range.end ==> bits_of(*self) == bits_of(*old(self)),
            decreases range.end - i,
        {
            let ghost before = bits_of(*self);
            bits_push(self, false);
            proof {
                let k = (i - range.start) as nat;
                assert(bits_of(*old(self)) + Seq::new(k + 1, |j: int| false)
                    =~= before.push(false));
            }
            i = i + 1;
        }
        proof {
            if range.start < range.end {
                assert(i == range.end);
            } else {
                assert(bits_of(*old(self)) + Seq::new(0, |j: int| false) =~= bits_of(*old(self)));
            }
        }
    }
}

} // verus!
