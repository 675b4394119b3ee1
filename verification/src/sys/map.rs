//! A SwissTable-style table of control bytes and keys, without hashing:
//! the key's first half picks where probing starts and is stored as the key,
//! its second half is stored as the control byte.
use vstd::prelude::*;

verus! {

/// Masks the first half of a key to the start of a group.
pub const GROUP_MASK: u16 = 0b11111111_11110000;
/// The bits a control byte keeps of the second half of a key.
pub const H2_MASK: i8 = 0b01111111;
/// The control byte of a slot that was never taken.
pub const EMPTY: i8 = 0b00000000;
/// The control byte of a slot whose entry was removed.
pub const DELETED: i8 = 0b01111111;
/// The number of slots probed together.
pub const GROUP: usize = 16;

/// The default allocator: the table's storage comes from the global heap.
#[derive(Debug, Clone, Copy, Default)]
pub struct Global;

/// The slots `i .. i + 16` of `s`.
pub open spec fn group<T>(s: Seq<T>, i: int) -> Seq<T> {
    s.subrange(i, i + 16)
}

/// The first slot of a group whose control byte is `h2` and whose key is `h1`.
pub open spec fn first_match(control: Seq<i8>, keys: Seq<u16>, h1: u16, h2: i8) -> Option<usize> {
    if exists|j: int| 0 <= j < 16 && control[j] == h2 && keys[j] == h1 {
        Some((choose|j: int| 0 <= j < 16 && control[j] == h2 && keys[j] == h1
            && forall|k: int| 0 <= k < j ==> !(control[k] == h2 && keys[k] == h1)) as usize)
    } else {
        None
    }
}

/// Whether a control byte marks a slot that an insert may take.
pub open spec fn is_free(c: i8) -> bool {
    c == EMPTY || c == DELETED
}

/// The first free slot of a group; 16 when there is none.
pub open spec fn first_free(control: Seq<i8>) -> usize {
    if exists|j: int| 0 <= j < 16 && is_free(#[trigger] control[j]) {
        (choose|j: int| 0 <= j < 16 && is_free(control[j]) && forall|k: int| 0 <= k < j ==> !is_free(#[trigger] control[k])) as usize
    } else {
        16
    }
}

/// The `n`th group probed from `start`: each step moves to `(i + 1) & capacity`.
pub open spec fn probe(start: usize, capacity: usize, n: nat) -> usize
    decreases n,
{
    if n == 0 {
        start
    } else {
        ((probe(start, capacity, (n - 1) as nat) + 1) as usize) & capacity
    }
}

/// Whether some slot of `control` has control byte `value`.
fn find_value(control: &[i8], value: i8) -> (r: bool)
    requires
        control@.len() == 16,
    ensures
        r == exists|j: int| 0 <= j < 16 && control@[j] == value,
{
    let mut j: usize = 0;
    while j < 16
        invariant
            j <= 16,
            control@.len() == 16,
            forall|k: int| 0 <= k < j ==> control@[k] != value,
        decreases 16 - j,
    {
        if control[j] == value {
            return true;
        }
        j = j + 1;
    }
    false
}

/// A table of `capacity` slots.
pub struct Table<A = Global> {
    control: Vec<i8>,
    keys: Vec<u16>,
    capacity: usize,
    allocator: A,
}

impl Table<Global> {
    /// An empty table of `capacity` slots on the global heap.
    pub fn new(capacity: usize) -> (t: Self)
        ensures
            t.wf(),
            t.capacity() == capacity,
            forall|j: int| 0 <= j < capacity ==> t.control()[j] == EMPTY && t.keys()[j] == 0,
    {
        Self::new_in(Global, capacity)
    }
}

impl<A> Table<A> {
    /// The control bytes.
    pub closed spec fn control(&self) -> Seq<i8> {
        self.control@
    }

    /// The keys.
    pub closed spec fn keys(&self) -> Seq<u16> {
        self.keys@
    }

    /// The number of slots.
    pub closed spec fn capacity(&self) -> usize {
        self.capacity
    }

    /// One control byte and one key per slot.
    pub open spec fn wf(&self) -> bool {
        &&& self.control().len() == self.capacity()
        &&& self.keys().len() == self.capacity()
    }

    /// Whether probing group `i` for `(h1, h2)` ends there: a slot matches,
    /// or a slot is empty.
    pub open spec fn stops(&self, i: usize, h1: u16, h2: i8) -> bool {
        first_match(group(self.control(), i as int), group(self.keys(), i as int), h1, h2) is Some
            || exists|j: int| 0 <= j < 16 && group(self.control(), i as int)[j] == EMPTY
    }

    /// Whether inserting `(h1, h2)` ends at group `i`: a slot matches, or a
    /// slot is free.
    pub open spec fn takes(&self, i: usize, h1: u16, h2: i8) -> bool {
        first_match(group(self.control(), i as int), group(self.keys(), i as int), h1, h2) is Some
            || first_free(group(self.control(), i as int)) < 16
    }

    /// Every group probed from `start`, up to the `n`th, lies inside the table.
    pub open spec fn probe_inside(&self, start: usize, n: nat) -> bool {
        forall|m: nat| m <= n ==> #[trigger] probe(start, self.capacity(), m) + 16 <= self.capacity()
    }

    /// The probe from `start` stops at its `n`th group, and every group up to
    /// it lies inside the table.
    pub open spec fn probe_ends(&self, start: usize, n: nat, h1: u16, h2: i8) -> bool {
        &&& self.probe_inside(start, n)
        &&& self.stops(probe(start, self.capacity(), n), h1, h2)
    }

    /// An insert probing from `start` would end at its `n`th group, and every
    /// group up to it lies inside the table.
    pub open spec fn insert_ends(&self, start: usize, n: nat, h1: u16, h2: i8) -> bool {
        &&& self.probe_inside(start, n)
        &&& self.takes(probe(start, self.capacity(), n), h1, h2)
    }

    /// The probe for `uid` stops first at its `n`th group.
    pub open spec fn get_stop(&self, uid: (u16, i8), n: nat) -> bool {
        &&& self.probe_ends(self.start(uid.0), n, uid.0, uid.1)
        &&& forall|m: nat| m < n ==> !self.stops(#[trigger] probe(self.start(uid.0), self.capacity(), m), uid.0, uid.1)
    }

    /// An insert of `uid` ends first at its `n`th group.
    pub open spec fn insert_stop(&self, uid: (u16, i8), n: nat) -> bool {
        &&& self.insert_ends(self.start(uid.0), n, uid.0, uid.1)
        &&& forall|m: nat| m < n ==> !self.takes(#[trigger] probe(self.start(uid.0), self.capacity(), m), uid.0, uid.1)
    }

    /// What a lookup of `uid` finds: the matching slot, within the first
    /// group where its probe stops.
    pub open spec fn lookup(&self, uid: (u16, i8)) -> Option<usize> {
        let n = choose|n: nat| self.get_stop(uid, n);
        let g = probe(self.start(uid.0), self.capacity(), n) as int;
        first_match(group(self.control(), g), group(self.keys(), g), uid.0, uid.1)
    }

    /// `after` is this table with `uid` inserted, which returned `r`: in the
    /// first group where the insert ends, the slot that matches `uid` is
    /// returned and nothing changes; else the first free slot gets `uid.1`
    /// as control byte and `uid.0` as key, and is returned.
    pub open spec fn inserted(&self, after: Self, uid: (u16, i8), r: Option<usize>) -> bool {
        &&& after.capacity() == self.capacity()
        &&& exists|n: nat| {
            &&& #[trigger] self.insert_stop(uid, n)
            &&& {
                let g = probe(self.start(uid.0), self.capacity(), n) as int;
                match first_match(group(self.control(), g), group(self.keys(), g), uid.0, uid.1) {
                    Some(j) => r == Some(j) && after.control() == self.control() && after.keys() == self.keys(),
                    None => {
                        let f = first_free(group(self.control(), g));
                        &&& r == Some(f)
                        &&& after.control() == self.control().update(g + f, uid.1)
                        &&& after.keys() == self.keys().update(g + f, uid.0)
                    },
                }
            }
        }
    }

    /// The slot where probing for a key whose first half is `h1` starts.
    pub open spec fn start(&self, h1: u16) -> usize {
        (h1 as usize) & ((self.capacity() - 1) as usize)
    }

    /// The group that the first half of a key selects.
    pub fn h1_index(&self, h1: u16) -> (r: usize)
        requires
            self.capacity() > 0,
        ensures
            r == ((h1 & GROUP_MASK) as usize) & ((self.capacity() - 1) as usize),
    {
        (h1 & GROUP_MASK) as usize & (self.capacity - 1)
    }

    /// An empty table of `capacity` slots that holds `allocator`.
    pub fn new_in(allocator: A, capacity: usize) -> (t: Self)
        ensures
            t.wf(),
            t.capacity() == capacity,
            forall|j: int| 0 <= j < capacity ==> t.control()[j] == EMPTY && t.keys()[j] == 0,
    {
        let mut control: Vec<i8> = Vec::new();
        let mut keys: Vec<u16> = Vec::new();
        let mut i: usize = 0;
        while i < capacity
            invariant
                i <= capacity,
                control@.len() == i,
                keys@.len() == i,
                forall|j: int| 0 <= j < i ==> control@[j] == EMPTY && keys@[j] == 0,
            decreases capacity - i,
        {
            control.push(EMPTY);
            keys.push(0);
            i = i + 1;
        }
        Table { control, keys, capacity, allocator }
    }

    /// The first slot of a group whose control byte is `h2` and key is `h1`.
    fn find(control: &[i8], keys: &[u16], h1: u16, h2: i8) -> (r: Option<usize>)
        requires
            control@.len() == 16,
            keys@.len() == 16,
        ensures
            r == first_match(control@, keys@, h1, h2),
    {
        let mut j: usize = 0;
        while j < 16
            invariant
                j <= 16,
                control@.len() == 16,
                keys@.len() == 16,
                forall|k: int| 0 <= k < j ==> !(control@[k] == h2 && keys@[k] == h1),
            decreases 16 - j,
        {
            if control[j] == h2 && keys[j] == h1 {
                proof {
                    let c = choose|c: int| 0 <= c < 16 && control@[c] == h2 && keys@[c] == h1
                        && forall|k: int| 0 <= k < c ==> !(control@[k] == h2 && keys@[k] == h1);
                    assert(c == j as int);
                }
                return Some(j);
            }
            j = j + 1;
        }
        None
    }

    /// The first free slot of a group, if any.
    fn find_control(control: &[i8]) -> (r: Option<usize>)
        requires
            control@.len() == 16,
        ensures
            r == (if first_free(control@) < 16 { Some(first_free(control@)) } else { None::<usize> }),
    {
        let mut j: usize = 0;
        while j < 16
            invariant
                j <= 16,
                control@.len() == 16,
                forall|k: int| 0 <= k < j ==> !is_free(#[trigger] control@[k]),
            decreases 16 - j,
        {
            if control[j] == EMPTY || control[j] == DELETED {
                proof {
                    assert(is_free(control@[j as int]));
                    let c = choose|c: int| 0 <= c < 16 && is_free(control@[c])
                        && forall|k: int| 0 <= k < c ==> !is_free(#[trigger] control@[k]);
                    if c < j {
                        assert(!is_free(control@[c]));
                    }
                    assert(c == j as int);
                }
                return Some(j);
            }
            j = j + 1;
        }
        None
    }

    /// Only one probe count is the first where a lookup stops.
    pub proof fn lemma_get_stop_unique(&self, uid: (u16, i8), n1: nat, n2: nat)
        requires
            self.get_stop(uid, n1),
            self.get_stop(uid, n2),
        ensures
            n1 == n2,
    {
        let start = self.start(uid.0);
        if n1 < n2 {
            assert(!self.stops(probe(start, self.capacity(), n1), uid.0, uid.1));
        } else if n2 < n1 {
            assert(!self.stops(probe(start, self.capacity(), n2), uid.0, uid.1));
        }
    }

    /// A lookup right after an insert finds the slot that the insert returned.
    pub proof fn lemma_lookup_after_insert(&self, after: Self, uid: (u16, i8), r: Option<usize>)
        requires
            self.wf(),
            self.inserted(after, uid, r),
        ensures
            after.wf(),
            exists|n: nat| #[trigger] after.get_stop(uid, n),
            after.lookup(uid) == r,
            r is Some,
    {
        let n = choose|n: nat| {
            &&& #[trigger] self.insert_stop(uid, n)
            &&& {
                let g = probe(self.start(uid.0), self.capacity(), n) as int;
                match first_match(group(self.control(), g), group(self.keys(), g), uid.0, uid.1) {
                    Some(j) => r == Some(j) && after.control() == self.control() && after.keys() == self.keys(),
                    None => {
                        let f = first_free(group(self.control(), g));
                        &&& r == Some(f)
                        &&& after.control() == self.control().update(g + f, uid.1)
                        &&& after.keys() == self.keys().update(g + f, uid.0)
                    },
                }
            }
        };
        let (h1, h2) = (uid.0, uid.1);
        let cap = self.capacity();
        let start = self.start(h1);
        assert(after.start(h1) == start);
        let g = probe(start, cap, n) as int;
        assert(g + 16 <= cap);
        let oc = group(self.control(), g);
        let ok = group(self.keys(), g);
        match first_match(oc, ok, h1, h2) {
            Some(j) => {
                assert(after.control() == self.control() && after.keys() == self.keys());
                assert forall|m: nat| m < n implies !after.stops(#[trigger] probe(start, cap, m), h1, h2) by {
                    let gm = probe(start, cap, m) as int;
                    assert(!self.takes(probe(start, cap, m), h1, h2));
                    assert forall|k: int| 0 <= k < 16 implies group(after.control(), gm)[k] != EMPTY by {
                        if group(after.control(), gm)[k] == EMPTY {
                            assert(is_free(group(self.control(), gm)[k]));
                        }
                    }
                }
                assert(after.stops(probe(start, cap, n), h1, h2));
                assert(after.get_stop(uid, n));
                let c = choose|c: nat| after.get_stop(uid, c);
                after.lemma_get_stop_unique(uid, c, n);
            },
            None => {
                let f = first_free(oc);
                assert(f < 16);
                let p = g + f;
                assert(is_free(oc[f as int])) by {
                    let j = choose|j: int| 0 <= j < 16 && is_free(#[trigger] oc[j]);
                }
                assert(after.control() == self.control().update(p, h2));
                assert(after.keys() == self.keys().update(p, h1));
                assert forall|m: nat| m < n implies !after.stops(#[trigger] probe(start, cap, m), h1, h2) by {
                    let gm = probe(start, cap, m) as int;
                    assert(!self.takes(probe(start, cap, m), h1, h2));
                    assert(gm + 16 <= cap);
                    assert forall|k: int| 0 <= k < 16 implies group(after.control(), gm)[k]
                        == group(self.control(), gm)[k] && group(after.keys(), gm)[k] == group(self.keys(), gm)[k] by {
                        if gm + k == p {
                            assert(is_free(group(self.control(), gm)[k]));
                        }
                    }
                    assert(group(after.control(), gm) =~= group(self.control(), gm));
                    assert(group(after.keys(), gm) =~= group(self.keys(), gm));
                    assert forall|k: int| 0 <= k < 16 implies group(after.control(), gm)[k] != EMPTY by {
                        if group(after.control(), gm)[k] == EMPTY {
                            assert(is_free(group(self.control(), gm)[k]));
                        }
                    }
                }
                let ac = group(after.control(), g);
                let ak = group(after.keys(), g);
                assert(ac =~= oc.update(f as int, h2));
                assert(ak =~= ok.update(f as int, h1));
                assert(ac[f as int] == h2 && ak[f as int] == h1);
                assert(first_match(ac, ak, h1, h2) == Some(f)) by {
                    let c = choose|c: int| 0 <= c < 16 && ac[c] == h2 && ak[c] == h1
                        && forall|k: int| 0 <= k < c ==> !(ac[k] == h2 && ak[k] == h1);
                    if c != f {
                        assert(ac[c] == oc[c] && ak[c] == ok[c]);
                    }
                }
                assert(after.stops(probe(start, cap, n), h1, h2));
                assert(after.get_stop(uid, n));
                let c = choose|c: nat| after.get_stop(uid, c);
                after.lemma_get_stop_unique(uid, c, n);
            },
        }
    }

    /// Inserting another key keeps what a lookup of `u` finds, where `u` is
    /// found and neither key's second half is a free marker.
    pub proof fn lemma_lookup_kept_by_insert(&self, after: Self, u: (u16, i8), v: (u16, i8), r: Option<usize>)
        requires
            self.wf(),
            self.inserted(after, v, r),
            u != v,
            !is_free(u.1),
            !is_free(v.1),
            exists|n: nat| #[trigger] self.get_stop(u, n),
            self.lookup(u) is Some,
        ensures
            exists|n: nat| #[trigger] after.get_stop(u, n),
            after.lookup(u) == self.lookup(u),
    {
        let nu = choose|n: nat| self.get_stop(u, n);
        let n = choose|n: nat| {
            &&& #[trigger] self.insert_stop(v, n)
            &&& {
                let g = probe(self.start(v.0), self.capacity(), n) as int;
                match first_match(group(self.control(), g), group(self.keys(), g), v.0, v.1) {
                    Some(j) => r == Some(j) && after.control() == self.control() && after.keys() == self.keys(),
                    None => {
                        let f = first_free(group(self.control(), g));
                        &&& r == Some(f)
                        &&& after.control() == self.control().update(g + f, v.1)
                        &&& after.keys() == self.keys().update(g + f, v.0)
                    },
                }
            }
        };
        let cap = self.capacity();
        let su = self.start(u.0);
        assert(after.start(u.0) == su);
        let gv = probe(self.start(v.0), cap, n) as int;
        assert(gv + 16 <= cap);
        let g = probe(su, cap, nu) as int;
        assert(g + 16 <= cap);
        let oc = group(self.control(), g);
        let ok = group(self.keys(), g);
        let j = choose|j: int| 0 <= j < 16 && oc[j] == u.1 && ok[j] == u.0
            && forall|k: int| 0 <= k < j ==> !(oc[k] == u.1 && ok[k] == u.0);
        assert(self.lookup(u) == Some(j as usize));
        let p: int = match first_match(group(self.control(), gv), group(self.keys(), gv), v.0, v.1) {
            Some(_) => -1,
            None => {
                let f = first_free(group(self.control(), gv));
                assert(f < 16);
                assert(is_free(group(self.control(), gv)[f as int])) by {
                    let i = choose|i: int| 0 <= i < 16 && is_free(#[trigger] group(self.control(), gv)[i]);
                }
                gv + f
            },
        };
        assert forall|k: int| 0 <= k < cap && k != p implies after.control()[k] == self.control()[k]
            && after.keys()[k] == self.keys()[k] by {}
        assert(p != -1 ==> 0 <= p < cap && is_free(self.control()[p]) && after.control()[p] == v.1 && after.keys()[p] == v.0);
        assert forall|m: nat| m < nu implies !after.stops(#[trigger] probe(su, cap, m), u.0, u.1) by {
            let gm = probe(su, cap, m) as int;
            assert(!self.stops(probe(su, cap, m), u.0, u.1));
            assert(gm + 16 <= cap);
            assert forall|k: int| 0 <= k < 16 implies !(#[trigger] group(after.control(), gm)[k] == u.1 && group(after.keys(), gm)[k] == u.0)
                && group(after.control(), gm)[k] != EMPTY by {
                if gm + k != p {
                    assert(group(self.control(), gm)[k] != EMPTY);
                    assert(!(group(self.control(), gm)[k] == u.1 && group(self.keys(), gm)[k] == u.0));
                }
            }
        }
        let ac = group(after.control(), g);
        let ak = group(after.keys(), g);
        assert(g + j != p);
        assert(ac[j] == u.1 && ak[j] == u.0);
        assert forall|k: int| 0 <= k < 16 implies ((#[trigger] ac[k] == u.1 && ak[k] == u.0) <==> (oc[k] == u.1 && ok[k] == u.0)) by {
            if g + k == p {
                assert(!(oc[k] == u.1));
            }
        }
        assert(first_match(ac, ak, u.0, u.1) == Some(j as usize)) by {
            let c = choose|c: int| 0 <= c < 16 && ac[c] == u.1 && ak[c] == u.0
                && forall|k: int| 0 <= k < c ==> !(ac[k] == u.1 && ak[k] == u.0);
            if c < j {
                assert(oc[c] == u.1 && ok[c] == u.0);
            }
            if j < c {
                assert(!(ac[j] == u.1 && ak[j] == u.0));
            }
        }
        assert(after.get_stop(u, nu));
        let c = choose|c: nat| after.get_stop(u, c);
        after.lemma_get_stop_unique(u, c, nu);
    }

    /// The slot, within the group where the probe for `uid` stops, that
    /// matches `uid`. The probe starts at slot `uid.0 & (capacity - 1)` and
    /// moves from group `i` to group `(i + 1) & capacity`; it stops at the
    /// first group that matches or has an empty slot.
    pub fn get(&self, uid: (u16, i8)) -> (r: Option<usize>)
        requires
            self.wf(),
            self.capacity() > 0,
            exists|n: nat| #[trigger] self.probe_ends(self.start(uid.0), n, uid.0, uid.1),
        ensures
            exists|n: nat| #[trigger] self.get_stop(uid, n),
            r == self.lookup(uid),
    {
        let (h1, h2) = (uid.0, uid.1);
        let control = self.control.as_slice();
        let keys = self.keys.as_slice();
        let start = (h1 as usize) & (self.capacity - 1);
        let ghost w = choose|n: nat| self.probe_ends(start, n, h1, h2);
        let mut i = start;
        let ghost mut count: nat = 0;
        loop
            invariant
                self.wf(),
                control@ == self.control(),
                keys@ == self.keys(),
                start == self.start(uid.0),
                h1 == uid.0,
                h2 == uid.1,
                self.probe_ends(start, w, h1, h2),
                count <= w,
                i == probe(start, self.capacity(), count),
                forall|m: nat| m < count ==> !self.stops(#[trigger] probe(start, self.capacity(), m), h1, h2),
            decreases w - count,
        {
            assert(probe(start, self.capacity(), count) + 16 <= self.capacity());
            let group_control = &control[i..i + 16];
            let group_keys = &keys[i..i + 16];
            let result = Self::find(group_control, group_keys, h1, h2);
            if result.is_some() || find_value(group_control, EMPTY) {
                proof {
                    assert(group_control@ == group(self.control(), i as int));
                    assert(group_keys@ == group(self.keys(), i as int));
                    assert(self.stops(i, h1, h2));
                    assert(self.get_stop(uid, count));
                    let c = choose|c: nat| self.get_stop(uid, c);
                    self.lemma_get_stop_unique(uid, c, count);
                }
                return result;
            }
            proof {
                if count == w {
                    assert(self.stops(i, h1, h2));
                }
                assert(probe(start, self.capacity(), count + 1) == ((i + 1) as usize) & self.capacity());
            }
            i = (i + 1) & self.capacity;
            proof {
                count = count + 1;
            }
        }
    }

    /// Records `uid`. The probe starts at slot `uid.0 & (capacity - 1)` and
    /// moves from group `i` to group `(i + 1) & capacity`; in the first group
    /// that matches `uid` or has a free slot, the matching slot is returned,
    /// else the first free slot gets `uid.1` as control byte and `uid.0` as
    /// key and is returned. The slot is counted within its group.
    pub fn insert(&mut self, uid: (u16, i8)) -> (r: Option<usize>)
        requires
            old(self).wf(),
            old(self).capacity() > 0,
            exists|n: nat| #[trigger] old(self).insert_ends(old(self).start(uid.0), n, uid.0, uid.1),
        ensures
            final(self).wf(),
            old(self).inserted(*final(self), uid, r),
            final(self).lookup(uid) == r,
            exists|n: nat| #[trigger] final(self).get_stop(uid, n),
    {
        let ghost before = *self;
        let (h1, h2) = (uid.0, uid.1);
        let start = (h1 as usize) & (self.capacity - 1);
        let ghost w = choose|n: nat| self.insert_ends(start, n, h1, h2);
        let mut i = start;
        let ghost mut count: nat = 0;
        loop
            invariant
                *self == before,
                before == *old(self),
                self.wf(),
                start == self.start(uid.0),
                h1 == uid.0,
                h2 == uid.1,
                self.insert_ends(start, w, h1, h2),
                count <= w,
                i == probe(start, self.capacity(), count),
                forall|m: nat| m < count ==> !self.takes(#[trigger] probe(start, self.capacity(), m), h1, h2),
            decreases w - count,
        {
            assert(probe(start, self.capacity(), count) + 16 <= self.capacity());
            let found = {
                let control = self.control.as_slice();
                let keys = self.keys.as_slice();
                Self::find(&control[i..i + 16], &keys[i..i + 16], h1, h2)
            };
            let open = {
                let control = self.control.as_slice();
                Self::find_control(&control[i..i + 16])
            };
            proof {
                assert(self.control@.subrange(i as int, i + 16) == group(self.control(), i as int));
                assert(self.keys@.subrange(i as int, i + 16) == group(self.keys(), i as int));
            }
            if found.is_some() {
                proof {
                    assert(before.insert_stop(uid, count));
                    assert(first_match(group(before.control(), i as int), group(before.keys(), i as int), h1, h2) == found);
                    assert(before.inserted(*self, uid, found));
                    before.lemma_lookup_after_insert(*self, uid, found);
                }
                return found;
            }
            if let Some(j) = open {
                self.control.set(i + j, h2);
                self.keys.set(i + j, h1);
                proof {
                    assert(before.insert_stop(uid, count));
                    assert(first_match(group(before.control(), i as int), group(before.keys(), i as int), h1, h2) is None);
                    assert(first_free(group(before.control(), i as int)) == j);
                    assert(self.control() == before.control().update(i + j, h2));
                    assert(self.keys() == before.keys().update(i + j, h1));
                    assert(before.inserted(*self, uid, Some(j)));
                    before.lemma_lookup_after_insert(*self, uid, Some(j));
                }
                return Some(j);
            }
            proof {
                if count == w {
                    assert(self.takes(i, h1, h2));
                }
                assert(probe(start, self.capacity(), count + 1) == ((i + 1) as usize) & self.capacity());
            }
            i = (i + 1) & self.capacity;
            proof {
                count = count + 1;
            }
        }
    }
}

} // verus!
