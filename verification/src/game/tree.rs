//! The hierarchy of game entities: parents, ordered children, and the
//! walks over them.
use vstd::prelude::*;
use std::collections::HashMap;

use crate::sys::Uid;
use crate::sys::delete::Delete;

verus! {

broadcast use vstd::std_specs::hash::group_hash_axioms;

/// `s` with the occurrence of `x` taken out (`s` itself when `x` is absent).
pub open spec fn without(s: Seq<Uid>, x: Uid) -> Seq<Uid> {
    if s.contains(x) {
        s.remove(s.index_of(x))
    } else {
        s
    }
}

/// `s` with `x` put at `index`, or at the end when there is no index.
pub open spec fn put_at(s: Seq<Uid>, index: Option<usize>, x: Uid) -> Seq<Uid> {
    match index {
        Some(i) => s.insert(i as int, x),
        None => s.push(x),
    }
}

/// Taking `x` out keeps the other entities and their distinctness.
pub proof fn lemma_without(s: Seq<Uid>, x: Uid)
    requires
        s.no_duplicates(),
    ensures
        without(s, x).no_duplicates(),
        forall|y: Uid| #[trigger] without(s, x).contains(y) <==> (s.contains(y) && y != x),
        without(s, x).len() == if s.contains(x) { s.len() - 1 } else { s.len() as int },
{
    if s.contains(x) {
        let j = s.index_of(x);
        let r = s.remove(j);
        assert forall|y: Uid| #[trigger] r.contains(y) <==> (s.contains(y) && y != x) by {
            if r.contains(y) {
                let k = choose|k: int| 0 <= k < r.len() && r[k] == y;
                if k < j {
                    assert(s[k] == y);
                } else {
                    assert(s[k + 1] == y);
                }
            }
            if s.contains(y) && y != x {
                let k = choose|k: int| 0 <= k < s.len() && s[k] == y;
                if k < j {
                    assert(r[k] == y);
                } else {
                    assert(k != j);
                    assert(r[k - 1] == y);
                }
            }
        }
    }
}

/// Taking out an `x` just put into a list without it gives the list back.
pub proof fn lemma_without_put_at(s: Seq<Uid>, index: Option<usize>, x: Uid)
    requires
        index matches Some(i) ==> i <= s.len(),
        !s.contains(x),
    ensures
        without(put_at(s, index, x), x) == s,
{
    let r = put_at(s, index, x);
    let j: int = match index { Some(i) => i as int, None => s.len() as int };
    assert forall|k: int| 0 <= k < r.len() implies #[trigger] r[k] == if k < j { s[k] } else if k == j { x } else { s[k - 1] } by {}
    assert(r.contains(x)) by {
        assert(r[j] == x);
    }
    let m = r.index_of(x);
    assert(m == j) by {
        if m < j {
            assert(s[m] == x);
        } else if m > j {
            assert(s[m - 1] == x);
        }
    }
    assert(r.remove(j) =~= s);
}

/// Putting `x` in adds exactly `x`, and keeps distinctness when `x` was absent.
pub proof fn lemma_put_at(s: Seq<Uid>, index: Option<usize>, x: Uid)
    requires
        index matches Some(i) ==> i <= s.len(),
    ensures
        forall|y: Uid| #[trigger] put_at(s, index, x).contains(y) <==> (s.contains(y) || y == x),
        s.no_duplicates() && !s.contains(x) ==> put_at(s, index, x).no_duplicates(),
        put_at(s, index, x).len() == s.len() + 1,
{
    let r = put_at(s, index, x);
    let j: int = match index { Some(i) => i as int, None => s.len() as int };
    assert(r.len() == s.len() + 1);
    assert forall|k: int| 0 <= k < r.len() implies #[trigger] r[k] == if k < j { s[k] } else if k == j { x } else { s[k - 1] } by {}
    assert forall|y: Uid| #[trigger] r.contains(y) <==> (s.contains(y) || y == x) by {
        if r.contains(y) {
            let k = choose|k: int| 0 <= k < r.len() && r[k] == y;
            if k < j {
                assert(s[k] == y);
            } else if k > j {
                assert(s[k - 1] == y);
            }
        }
        if s.contains(y) {
            let k = choose|k: int| 0 <= k < s.len() && s[k] == y;
            if k < j {
                assert(r[k] == y);
            } else {
                assert(r[k + 1] == y);
            }
        }
        if y == x {
            assert(r[j] == y);
        }
    }
    if s.no_duplicates() && !s.contains(x) {
        assert forall|a: int, b: int| 0 <= a < r.len() && 0 <= b < r.len() && a != b implies r[a] != r[b] by {
            if a == j {
                if b < j { assert(s.contains(s[b])); } else { assert(s.contains(s[b - 1])); }
            } else if b == j {
                if a < j { assert(s.contains(s[a])); } else { assert(s.contains(s[a - 1])); }
            }
        }
    }
}

/// The index of `x` in `v`, which holds it.
fn position(v: &Vec<Uid>, x: Uid) -> (r: usize)
    requires
        v@.contains(x),
    ensures
        r < v@.len(),
        v@[r as int] == x,
        forall|j: int| 0 <= j < r ==> v@[j] != x,
{
    let mut i: usize = 0;
    while i < v.len()
        invariant
            i <= v@.len(),
            forall|j: int| 0 <= j < i ==> v@[j] != x,
            v@.contains(x),
        decreases v@.len() - i,
    {
        if v[i] == x {
            return i;
        }
        i = i + 1;
    }
    proof {
        let k = choose|k: int| 0 <= k < v@.len() && v@[k] == x;
        assert(v@[k] != x);
    }
    0
}

/// Two lists without repeats and without common entities make a list
/// without repeats.
pub proof fn lemma_no_duplicates_append(a: Seq<Uid>, b: Seq<Uid>)
    requires
        a.no_duplicates(),
        b.no_duplicates(),
        forall|x: Uid| a.contains(x) ==> !b.contains(x),
    ensures
        (a + b).no_duplicates(),
{
    let c = a + b;
    assert forall|i: int, j: int| 0 <= i < c.len() && 0 <= j < c.len() && i != j implies c[i] != c[j] by {
        if i < a.len() && j >= a.len() {
            assert(a.contains(c[i]));
            assert(b[j - a.len()] == c[j]);
        } else if j < a.len() && i >= a.len() {
            assert(a.contains(c[j]));
            assert(b[i - a.len()] == c[i]);
        } else if i >= a.len() && j >= a.len() {
            assert(b[i - a.len()] == c[i] && b[j - a.len()] == c[j]);
        }
    }
}

/// An entity's place in the hierarchy.
#[derive(Debug)]
pub struct Node {
    parent: Option<Uid>,
    children: Vec<Uid>,
}

/// A forest of entities: each entity has an optional parent and an
/// ordered list of children; the entities without parent are the roots,
/// also in order.
pub struct Tree {
    nodes: HashMap<Uid, Node>,
    roots: Vec<Uid>,
    /// A bound on the number of ancestors of any entity.
    bound: Ghost<nat>,
}

impl Tree {
    /// Whether `u` is in the hierarchy.
    pub open spec fn contains(&self, u: Uid) -> bool {
        self.entities().contains(u)
    }

    /// The entities of the hierarchy.
    pub closed spec fn entities(&self) -> Set<Uid> {
        self.nodes@.dom()
    }

    /// The parent of `u`, which is in the hierarchy.
    pub closed spec fn parent_of(&self, u: Uid) -> Option<Uid> {
        self.nodes@[u].parent
    }

    /// The children of `p`; for `None`, the roots.
    pub closed spec fn children_of(&self, p: Option<Uid>) -> Seq<Uid> {
        match p {
            None => self.roots@,
            Some(q) => self.nodes@[q].children@,
        }
    }

    /// Whether `p` is `None` or in the hierarchy.
    pub open spec fn is_place(&self, p: Option<Uid>) -> bool {
        match p {
            None => true,
            Some(q) => self.contains(q),
        }
    }

    /// The bound on the number of ancestors of any entity.
    pub closed spec fn bound(&self) -> nat {
        self.bound@
    }

    /// `u` has at most `k` ancestors.
    pub closed spec fn depth_within(&self, u: Uid, k: nat) -> bool
        decreases k,
    {
        match self.parent_of(u) {
            None => true,
            Some(p) => k > 0 && self.depth_within(p, (k - 1) as nat),
        }
    }

    /// `a` is `u` or one of its first `k` ancestors.
    pub closed spec fn reaches(&self, u: Uid, a: Uid, k: nat) -> bool
        decreases k,
    {
        u == a || (k > 0 && match self.parent_of(u) {
            None => false,
            Some(p) => self.reaches(p, a, (k - 1) as nat),
        })
    }

    /// `a` is `u` or an ancestor of `u`.
    pub open spec fn is_ancestor_or_self(&self, a: Uid, u: Uid) -> bool {
        self.reaches(u, a, self.bound())
    }

    /// Parents and child lists agree, no list repeats an entity, and no
    /// entity is its own ancestor.
    pub closed spec fn wf(&self) -> bool {
        &&& forall|u: Uid| #[trigger] self.contains(u) ==> match self.parent_of(u) {
            None => self.roots@.contains(u),
            Some(p) => self.contains(p) && self.nodes@[p].children@.contains(u),
        }
        &&& forall|p: Uid, i: int| #![trigger self.nodes@[p].children@[i]]
            self.contains(p) && 0 <= i < self.nodes@[p].children@.len() ==> {
                let c = self.nodes@[p].children@[i];
                self.contains(c) && self.parent_of(c) == Some(p)
            }
        &&& forall|i: int| #![trigger self.roots@[i]] 0 <= i < self.roots@.len() ==> {
                let c = self.roots@[i];
                self.contains(c) && self.parent_of(c) is None
            }
        &&& self.roots@.no_duplicates()
        &&& forall|p: Uid| #[trigger] self.contains(p) ==> self.nodes@[p].children@.no_duplicates()
        &&& forall|u: Uid| #[trigger] self.contains(u) ==> self.depth_within(u, self.bound())
    }

    /// An empty hierarchy.
    pub fn new() -> (t: Self)
        ensures
            t.wf(),
            t.entities() == Set::<Uid>::empty(),
            t.children_of(None) == Seq::<Uid>::empty(),
    {
        Tree { nodes: HashMap::new(), roots: Vec::new(), bound: Ghost(0) }
    }

    /// The children of `parent`, or the roots for `None`; `None` when
    /// `parent` is not in the hierarchy.
    pub fn get_children(&self, parent: Option<&Uid>) -> (r: Option<&Vec<Uid>>)
        ensures
            match parent {
                None => r matches Some(v) && v@ == self.children_of(None),
                Some(p) => if self.contains(*p) {
                    r matches Some(v) && v@ == self.children_of(Some(*p))
                } else {
                    r is None
                },
            },
    {
        match parent {
            None => Some(&self.roots),
            Some(p) => match self.nodes.get(p) {
                Some(node) => Some(&node.children),
                None => None,
            },
        }
    }

    /// Whether `a` is `u` or one of its ancestors.
    pub fn is_ancestor_or_self_of(&self, a: Uid, u: Uid) -> (r: bool)
        requires
            self.wf(),
            self.contains(u),
        ensures
            r == self.is_ancestor_or_self(a, u),
    {
        let mut cur = u;
        let ghost mut k: nat = self.bound();
        loop
            invariant
                self.wf(),
                self.contains(cur),
                self.depth_within(cur, k),
                self.reaches(cur, a, k) == self.is_ancestor_or_self(a, u),
            decreases k,
        {
            if cur == a {
                return true;
            }
            match self.nodes.get(&cur).unwrap().parent {
                None => {
                    return false;
                },
                Some(p) => {
                    proof {
                        self.lemma_parent_in(cur);
                        k = (k - 1) as nat;
                    }
                    cur = p;
                },
            }
        }
    }

    /// The child of `parent` (a root for `None`) at `index`.
    pub fn get_child(&self, parent: Option<&Uid>, index: usize) -> (r: Option<&Uid>)
        ensures
            ({
                let place = match parent {
                    None => None,
                    Some(p) => Some(*p),
                };
                if self.is_place(place) && index < self.children_of(place).len() {
                    r matches Some(c) && *c == self.children_of(place)[index as int]
                } else {
                    r is None
                }
            }),
    {
        match self.get_children(parent) {
            Some(children) => children.get(index),
            None => None,
        }
    }

    /// Sets the parent field of `u`.
    fn set_parent(&mut self, u: Uid, p: Option<Uid>)
        requires
            old(self).nodes@.contains_key(u),
        ensures
            final(self).nodes@ == old(self).nodes@.insert(
                u,
                Node { parent: p, children: old(self).nodes@[u].children },
            ),
            final(self).roots == old(self).roots,
            final(self).bound == old(self).bound,
    {
        let node = self.nodes.remove(&u).unwrap();
        self.nodes.insert(u, Node { parent: p, children: node.children });
    }

    /// Takes `x` out of the child list of `place`.
    fn remove_sibling(&mut self, place: Option<Uid>, x: Uid)
        requires
            old(self).is_place(place),
            old(self).children_of(place).contains(x),
            old(self).children_of(place).no_duplicates(),
        ensures
            final(self).nodes@.dom() == old(self).nodes@.dom(),
            final(self).bound == old(self).bound,
            forall|k: Uid| #[trigger] final(self).nodes@.contains_key(k)
                ==> final(self).nodes@[k].parent == old(self).nodes@[k].parent,
            forall|q: Option<Uid>| #[trigger] final(self).is_place(q) && q != place
                ==> final(self).children_of(q) == old(self).children_of(q),
            final(self).children_of(place) == without(old(self).children_of(place), x),
    {
        match place {
            None => {
                let pos = position(&self.roots, x);
                proof { self.roots@.index_of(x); }
                self.roots.remove(pos);
            },
            Some(q) => {
                let mut node = self.nodes.remove(&q).unwrap();
                let pos = position(&node.children, x);
                node.children.remove(pos);
                self.nodes.insert(q, node);
            },
        }
        proof {
            let s = old(self).children_of(place);
            let j = s.index_of(x);
            assert(s.contains(x));
            assert(0 <= j < s.len() && s[j] == x);
        }
    }

    /// Puts `x` into the child list of `place` at `index` (at the end for `None`).
    fn insert_sibling(&mut self, place: Option<Uid>, x: Uid, index: Option<usize>)
        requires
            old(self).is_place(place),
            index matches Some(i) ==> i <= old(self).children_of(place).len(),
        ensures
            final(self).nodes@.dom() == old(self).nodes@.dom(),
            final(self).bound == old(self).bound,
            forall|k: Uid| #[trigger] final(self).nodes@.contains_key(k)
                ==> final(self).nodes@[k].parent == old(self).nodes@[k].parent,
            forall|q: Option<Uid>| #[trigger] final(self).is_place(q) && q != place
                ==> final(self).children_of(q) == old(self).children_of(q),
            final(self).children_of(place) == put_at(old(self).children_of(place), index, x),
    {
        match place {
            None => {
                match index {
                    Some(i) => self.roots.insert(i, x),
                    None => self.roots.push(x),
                }
            },
            Some(q) => {
                let mut node = self.nodes.remove(&q).unwrap();
                match index {
                    Some(i) => node.children.insert(i, x),
                    None => node.children.push(x),
                }
                self.nodes.insert(q, node);
            },
        }
    }

    /// The child list of `q` once `child` has been moved under `parent` at `index`.
    pub open spec fn moved_children(
        &self,
        q: Option<Uid>,
        child: Uid,
        parent: Option<Uid>,
        index: Option<usize>,
    ) -> Seq<Uid> {
        let s = self.children_of(q);
        let s1 = if self.contains(child) && self.parent_of(child) == q {
            without(s, child)
        } else {
            s
        };
        if q == parent {
            put_at(s1, index, child)
        } else {
            s1
        }
    }

    /// The length the child list of `parent` has once `child` has left it.
    pub open spec fn room(&self, child: Uid, parent: Option<Uid>) -> int {
        if self.contains(child) && self.parent_of(child) == parent {
            self.children_of(parent).len() - 1
        } else {
            self.children_of(parent).len() as int
        }
    }

    /// Within `k` steps, raising the allowance keeps the bound.
    pub proof fn lemma_depth_mono(&self, u: Uid, a: nat, b: nat)
        requires
            a <= b,
            self.depth_within(u, a),
        ensures
            self.depth_within(u, b),
        decreases a,
    {
        if let Some(p) = self.parent_of(u) {
            self.lemma_depth_mono(p, (a - 1) as nat, (b - 1) as nat);
        }
    }

    /// In a well-formed tree, parents of entities are entities.
    pub proof fn lemma_parent_in(&self, u: Uid)
        requires
            self.wf(),
            self.contains(u),
        ensures
            self.parent_of(u) matches Some(p) ==> self.contains(p),
    {
    }

    /// An entity whose ancestors avoid `c` keeps its depth when only `c` moves.
    proof fn lemma_depth_kept(old_t: &Tree, new_t: &Tree, c: Uid, u: Uid, k: nat)
        requires
            old_t.wf(),
            forall|x: Uid| #[trigger] old_t.contains(x) && x != c ==> new_t.parent_of(x) == old_t.parent_of(x),
            old_t.contains(u),
            old_t.depth_within(u, k),
            !old_t.reaches(u, c, k),
        ensures
            new_t.depth_within(u, k),
        decreases k,
    {
        old_t.lemma_parent_in(u);
        if let Some(p) = old_t.parent_of(u) {
            Self::lemma_depth_kept(old_t, new_t, c, p, (k - 1) as nat);
        }
    }

    /// An entity below `c` is at most `k` steps above `c`, which is at depth `m`.
    proof fn lemma_depth_through(old_t: &Tree, new_t: &Tree, c: Uid, u: Uid, k: nat, m: nat)
        requires
            old_t.wf(),
            forall|x: Uid| #[trigger] old_t.contains(x) && x != c ==> new_t.parent_of(x) == old_t.parent_of(x),
            old_t.contains(u) || u == c,
            old_t.reaches(u, c, k),
            new_t.depth_within(c, m),
        ensures
            new_t.depth_within(u, k + m),
        decreases k,
    {
        if u == c {
            new_t.lemma_depth_mono(c, m, k + m);
        } else {
            old_t.lemma_parent_in(u);
            let p = old_t.parent_of(u)->Some_0;
            Self::lemma_depth_through(old_t, new_t, c, p, (k - 1) as nat, m);
        }
    }

    /// Moving `child` under `parent` keeps the tree well formed.
    proof fn lemma_move_wf(
        old_t: &Tree,
        new_t: &Tree,
        child: Uid,
        parent: Option<Uid>,
        index: Option<usize>,
    )
        requires
            old_t.wf(),
            old_t.is_place(parent),
            parent matches Some(p) ==> !old_t.reaches(p, child, old_t.bound()),
            index matches Some(i) ==> i <= old_t.room(child, parent),
            new_t.nodes@.dom() == old_t.nodes@.dom().insert(child),
            new_t.parent_of(child) == parent,
            forall|x: Uid| #[trigger] old_t.contains(x) && x != child ==> new_t.parent_of(x) == old_t.parent_of(x),
            forall|q: Option<Uid>| #[trigger] new_t.is_place(q) && (q != Some(child) || old_t.contains(child))
                ==> new_t.children_of(q) == old_t.moved_children(q, child, parent, index),
            !old_t.contains(child) ==> new_t.children_of(Some(child)) == Seq::<Uid>::empty(),
            new_t.bound() == 2 * old_t.bound() + 1,
        ensures
            new_t.wf(),
    {
        let b = old_t.bound();
        // A list holds `child` only when it is the list of `child`'s parent.
        assert forall|q: Option<Uid>| #[trigger] old_t.is_place(q) && old_t.children_of(q).contains(child)
            implies old_t.contains(child) && old_t.parent_of(child) == q by {
            let s = old_t.children_of(q);
            let j = choose|j: int| 0 <= j < s.len() && s[j] == child;
            match q {
                None => { assert(old_t.roots@[j] == child); },
                Some(p) => { assert(old_t.nodes@[p].children@[j] == child); },
            }
        }
        // Facts about each new list.
        assert forall|q: Option<Uid>| #[trigger] new_t.is_place(q) implies ({
            &&& new_t.children_of(q).no_duplicates()
            &&& forall|y: Uid| #[trigger] new_t.children_of(q).contains(y) ==> (
                (y == child && q == parent) || (y != child && old_t.is_place(q) && old_t.children_of(q).contains(y)))
            &&& forall|y: Uid| old_t.is_place(q) && old_t.children_of(q).contains(y) && y != child
                ==> #[trigger] new_t.children_of(q).contains(y)
            &&& q == parent ==> new_t.children_of(q).contains(child)
        }) by {
            if q == Some(child) && !old_t.contains(child) {
                assert(new_t.children_of(q) =~= Seq::<Uid>::empty());
                assert(q != parent);
            } else {
                assert(old_t.is_place(q));
                let s = old_t.children_of(q);
                assert(s.no_duplicates()) by {
                    if let Some(p) = q {
                        assert(old_t.contains(p));
                    }
                }
                lemma_without(s, child);
                let s1 = if old_t.contains(child) && old_t.parent_of(child) == q { without(s, child) } else { s };
                assert(!s1.contains(child));
                if q == parent {
                    assert(index matches Some(i) ==> i <= s1.len());
                    lemma_put_at(s1, index, child);
                }
            }
        }
        // Parents point to lists that hold their children.
        assert forall|u: Uid| #[trigger] new_t.contains(u) implies match new_t.parent_of(u) {
            None => new_t.roots@.contains(u),
            Some(p) => new_t.contains(p) && new_t.nodes@[p].children@.contains(u),
        } by {
            if u == child {
                assert(new_t.is_place(parent));
                assert(new_t.children_of(parent).contains(child));
            } else {
                assert(old_t.contains(u));
                let q = old_t.parent_of(u);
                assert(old_t.is_place(q));
                assert(old_t.children_of(q).contains(u));
                assert(new_t.is_place(q));
                assert(new_t.children_of(q).contains(u));
            }
        }
        // List entries point back to their list.
        assert forall|p: Uid, i: int| #![trigger new_t.nodes@[p].children@[i]]
            new_t.contains(p) && 0 <= i < new_t.nodes@[p].children@.len() implies {
                let c = new_t.nodes@[p].children@[i];
                new_t.contains(c) && new_t.parent_of(c) == Some(p)
            } by {
            let c = new_t.nodes@[p].children@[i];
            assert(new_t.is_place(Some(p)));
            assert(new_t.children_of(Some(p)).contains(c));
            if c != child {
                let s = old_t.nodes@[p].children@;
                let j = choose|j: int| 0 <= j < s.len() && s[j] == c;
                assert(old_t.nodes@[p].children@[j] == c);
            }
        }
        assert forall|i: int| #![trigger new_t.roots@[i]] 0 <= i < new_t.roots@.len() implies {
                let c = new_t.roots@[i];
                new_t.contains(c) && new_t.parent_of(c) is None
            } by {
            let c = new_t.roots@[i];
            assert(new_t.is_place(None));
            assert(new_t.children_of(None).contains(c));
            if c != child {
                let j = choose|j: int| 0 <= j < old_t.roots@.len() && old_t.roots@[j] == c;
                assert(old_t.roots@[j] == c);
            }
        }
        assert(new_t.roots@.no_duplicates()) by {
            assert(new_t.is_place(None));
        }
        assert forall|p: Uid| #[trigger] new_t.contains(p) implies new_t.nodes@[p].children@.no_duplicates() by {
            assert(new_t.is_place(Some(p)));
        }
        // Depths stay within the new bound.
        if let Some(p) = parent {
            Self::lemma_depth_kept(old_t, new_t, child, p, b);
            assert(new_t.depth_within(child, b + 1));
        }
        assert(new_t.depth_within(child, b + 1));
        assert forall|u: Uid| #[trigger] new_t.contains(u) implies new_t.depth_within(u, new_t.bound()) by {
            if u == child {
                new_t.lemma_depth_mono(child, b + 1, 2 * b + 1);
            } else if old_t.reaches(u, child, b) {
                assert(old_t.contains(u));
                Self::lemma_depth_through(old_t, new_t, child, u, b, b + 1);
            } else {
                assert(old_t.contains(u));
                Self::lemma_depth_kept(old_t, new_t, child, u, b);
                new_t.lemma_depth_mono(u, b, 2 * b + 1);
            }
        }
    }

    /// Where an entity moved under `parent` goes: under `parent` when it is
    /// in the hierarchy, else among the roots.
    pub open spec fn place_of(&self, parent: Option<Uid>) -> Option<Uid> {
        match parent {
            Some(p) => if self.contains(p) { Some(p) } else { None },
            None => None,
        }
    }

    /// Moves `child` (adding it when new) under `parent`, or among the roots
    /// for `None` or for a parent that is not in the hierarchy, at `index` in
    /// the child list, or at its end when there is no index. Its own children
    /// stay with it.
    pub fn parent(&mut self, child: Uid, parent: Option<Uid>, index: Option<usize>)
        requires
            old(self).wf(),
            old(self).place_of(parent) matches Some(p) ==> !old(self).is_ancestor_or_self(child, p),
            index matches Some(i) ==> i <= old(self).room(child, old(self).place_of(parent)),
        ensures
            final(self).wf(),
            final(self).entities() == old(self).entities().insert(child),
            final(self).parent_of(child) == old(self).place_of(parent),
            forall|u: Uid| #[trigger] old(self).contains(u) && u != child
                ==> final(self).parent_of(u) == old(self).parent_of(u),
            forall|q: Option<Uid>| #[trigger] final(self).is_place(q) && (q != Some(child) || old(self).contains(child))
                ==> final(self).children_of(q) == old(self).moved_children(q, child, old(self).place_of(parent), index),
            !old(self).contains(child) ==> final(self).children_of(Some(child)) == Seq::<Uid>::empty(),
            match index {
                Some(i) => final(self).children_of(old(self).place_of(parent))[i as int] == child,
                None => final(self).children_of(old(self).place_of(parent)).last() == child,
            },
    {
        let place = match parent {
            Some(p) => if self.get_children(Some(&p)).is_some() { Some(p) } else { None },
            None => None,
        };
        self.attach(child, place, index);
    }

    /// Moves `child` (adding it when new) under `parent`, which is in the
    /// hierarchy, or among the roots for `None`.
    fn attach(&mut self, child: Uid, parent: Option<Uid>, index: Option<usize>)
        requires
            old(self).wf(),
            old(self).is_place(parent),
            parent matches Some(p) ==> !old(self).is_ancestor_or_self(child, p),
            index matches Some(i) ==> i <= old(self).room(child, parent),
        ensures
            final(self).wf(),
            final(self).entities() == old(self).entities().insert(child),
            final(self).parent_of(child) == parent,
            forall|u: Uid| #[trigger] old(self).contains(u) && u != child
                ==> final(self).parent_of(u) == old(self).parent_of(u),
            forall|q: Option<Uid>| #[trigger] final(self).is_place(q) && (q != Some(child) || old(self).contains(child))
                ==> final(self).children_of(q) == old(self).moved_children(q, child, parent, index),
            !old(self).contains(child) ==> final(self).children_of(Some(child)) == Seq::<Uid>::empty(),
            match index {
                Some(i) => final(self).children_of(parent)[i as int] == child,
                None => final(self).children_of(parent).last() == child,
            },
    {
        let ghost old_t = *self;
        if self.nodes.contains_key(&child) {
            let prev = self.nodes.get(&child).unwrap().parent;
            proof {
                assert(old_t.contains(child));
                assert(prev == old_t.parent_of(child));
                assert(old_t.is_place(prev));
                assert(old_t.children_of(prev).contains(child));
                if let Some(q) = prev {
                    assert(old_t.contains(q));
                }
            }
            self.set_parent(child, parent);
            assert(self.children_of(prev) == old_t.children_of(prev));
            let ghost after_set = *self;
            assert(after_set.nodes@[child].parent == parent);
            self.remove_sibling(prev, child);
            assert(self.nodes@.contains_key(child));
            assert(self.nodes@[child].parent == parent);
        } else {
            let empty: Vec<Uid> = Vec::new();
            self.nodes.insert(child, Node { parent, children: empty });
            assert(self.nodes@[child].children@ == Seq::<Uid>::empty());
        }
        let ghost mid = *self;
        proof {
            assert forall|q: Option<Uid>| #[trigger] mid.is_place(q) && (q != Some(child) || old_t.contains(child))
                implies mid.children_of(q) == if old_t.contains(child) && old_t.parent_of(child) == q {
                    without(old_t.children_of(q), child) } else { old_t.children_of(q) } by {
                if let Some(p) = q {
                    if p != child {
                        assert(old_t.contains(p));
                    }
                }
            }
        }
        proof {
            assert(parent != Some(child));
            if let Some(p) = parent {
                assert(mid.nodes@.contains_key(p));
            }
            assert(mid.is_place(parent));
            if old_t.contains(child) && old_t.parent_of(child) == parent {
                assert(old_t.children_of(parent).no_duplicates()) by {
                    if let Some(p) = parent {
                        assert(old_t.contains(p));
                    }
                }
                lemma_without(old_t.children_of(parent), child);
            }
        }
        self.insert_sibling(parent, child, index);
        let ghost ins = *self;
        self.bound = Ghost(2 * self.bound@ + 1);
        proof {
            let new_t = *self;
            assert(mid.nodes@[child].parent == parent);
            assert(ins.nodes@.contains_key(child));
            assert(new_t.nodes == ins.nodes && new_t.roots == ins.roots);
            assert forall|q: Option<Uid>| #[trigger] new_t.is_place(q)
                implies new_t.children_of(q) == ins.children_of(q) by {}
            assert forall|x: Uid| #[trigger] old_t.contains(x) && x != child
                implies new_t.parent_of(x) == old_t.parent_of(x) by {
                assert(mid.nodes@.contains_key(x));
            }
            assert forall|q: Option<Uid>| #[trigger] new_t.is_place(q) && (q != Some(child) || old_t.contains(child))
                implies new_t.children_of(q) == old_t.moved_children(q, child, parent, index) by {
                assert(mid.is_place(q));
                if q == parent {
                    assert(new_t.children_of(q) == put_at(mid.children_of(q), index, child));
                } else {
                    assert(ins.is_place(q));
                    assert(new_t.children_of(q) == mid.children_of(q));
                }
            }
            if !old_t.contains(child) {
                assert(mid.is_place(Some(child)));
                assert(parent != Some(child));
                assert(ins.is_place(Some(child)));
                assert(new_t.children_of(Some(child)) == mid.children_of(Some(child)));
            }
            Self::lemma_move_wf(&old_t, &new_t, child, parent, index);
            assert(new_t.is_place(parent));
        }
    }


    /// Depth bounds depend on the parent links alone.
    proof fn lemma_same_depth(a: &Tree, b: &Tree, u: Uid, k: nat)
        requires
            a.nodes@ == b.nodes@,
        ensures
            a.depth_within(u, k) == b.depth_within(u, k),
        decreases k,
    {
        if let Some(p) = a.parent_of(u) {
            if k > 0 {
                Self::lemma_same_depth(a, b, p, (k - 1) as nat);
            }
        }
    }

    /// Trees with the same views are equally well formed.
    proof fn lemma_same_view(a: &Tree, b: &Tree)
        requires
            a.wf(),
            a.nodes@ == b.nodes@,
            a.roots@ == b.roots@,
            a.bound == b.bound,
        ensures
            b.wf(),
    {
        assert forall|u: Uid| #[trigger] b.contains(u) implies b.depth_within(u, b.bound()) by {
            assert(a.contains(u));
            Self::lemma_same_depth(a, b, u, a.bound());
        }
        assert forall|u: Uid| #[trigger] b.contains(u) implies match b.parent_of(u) {
            None => b.roots@.contains(u),
            Some(p) => b.contains(p) && b.nodes@[p].children@.contains(u),
        } by {
            assert(a.contains(u));
        }
        assert forall|p: Uid, i: int| #![trigger b.nodes@[p].children@[i]]
            b.contains(p) && 0 <= i < b.nodes@[p].children@.len() implies {
                let c = b.nodes@[p].children@[i];
                b.contains(c) && b.parent_of(c) == Some(p)
            } by {
            assert(a.contains(p));
            assert(a.nodes@[p].children@[i] == b.nodes@[p].children@[i]);
        }
        assert forall|i: int| #![trigger b.roots@[i]] 0 <= i < b.roots@.len() implies {
                let c = b.roots@[i];
                b.contains(c) && b.parent_of(c) is None
            } by {
            assert(a.roots@[i] == b.roots@[i]);
        }
        assert forall|p: Uid| #[trigger] b.contains(p) implies b.nodes@[p].children@.no_duplicates() by {
            assert(a.contains(p));
        }
    }

    /// No entity is its own parent.
    proof fn lemma_not_own_parent(&self, u: Uid, k: nat)
        requires
            self.depth_within(u, k),
        ensures
            self.parent_of(u) != Some(u),
        decreases k,
    {
        if self.parent_of(u) == Some(u) {
            self.lemma_not_own_parent(u, (k - 1) as nat);
        }
    }

    /// Cutting parent links (and keeping the others) keeps depths.
    proof fn lemma_depth_cut(old_t: &Tree, new_t: &Tree, x: Uid, k: nat)
        requires
            old_t.wf(),
            old_t.contains(x),
            new_t.contains(x),
            old_t.depth_within(x, k),
            forall|y: Uid| #[trigger] new_t.contains(y) ==> (new_t.parent_of(y) is None
                || new_t.parent_of(y) == old_t.parent_of(y)),
            forall|y: Uid| #[trigger] new_t.contains(y) ==> (new_t.parent_of(y) matches Some(p)
                ==> new_t.contains(p)),
        ensures
            new_t.depth_within(x, k),
        decreases k,
    {
        old_t.lemma_parent_in(x);
        if let Some(p) = new_t.parent_of(x) {
            Self::lemma_depth_cut(old_t, new_t, p, (k - 1) as nat);
        }
    }

    /// The parent `uid`'s children have once `uid` is deleted.
    pub open spec fn parent_after_delete(&self, uid: Uid, u: Uid) -> Option<Uid> {
        if self.parent_of(u) == Some(uid) {
            None
        } else {
            self.parent_of(u)
        }
    }

    /// The child list of `q` once `uid` is deleted: `uid` leaves its list
    /// and its children are appended to the roots.
    pub open spec fn children_after_delete(&self, uid: Uid, q: Option<Uid>) -> Seq<Uid> {
        let s = self.children_of(q);
        let s1 = if self.parent_of(uid) == q {
            without(s, uid)
        } else {
            s
        };
        if q is None {
            s1 + self.children_of(Some(uid))
        } else {
            s1
        }
    }

    /// Deleting `uid` keeps the tree well formed.
    proof fn lemma_delete_wf(old_t: &Tree, new_t: &Tree, uid: Uid)
        requires
            old_t.wf(),
            old_t.contains(uid),
            new_t.nodes@.dom() == old_t.nodes@.dom().remove(uid),
            forall|u: Uid| #[trigger] new_t.contains(u) ==> new_t.parent_of(u) == old_t.parent_after_delete(uid, u),
            forall|q: Option<Uid>| #[trigger] new_t.is_place(q)
                ==> new_t.children_of(q) == old_t.children_after_delete(uid, q),
            new_t.bound() == old_t.bound(),
        ensures
            new_t.wf(),
    {
        let b = old_t.bound();
        let kids = old_t.children_of(Some(uid));
        old_t.lemma_not_own_parent(uid, b);
        old_t.lemma_parent_in(uid);
        let pu = old_t.parent_of(uid);
        assert(old_t.is_place(pu));
        assert(kids.no_duplicates());
        // A list holds `uid` only when it is the list of `uid`'s parent.
        assert forall|q: Option<Uid>, y: Uid| old_t.is_place(q) && #[trigger] old_t.children_of(q).contains(y)
            implies old_t.contains(y) && old_t.parent_of(y) == q by {
            let s = old_t.children_of(q);
            let j = choose|j: int| 0 <= j < s.len() && s[j] == y;
            match q {
                None => { assert(old_t.roots@[j] == y); },
                Some(p) => { assert(old_t.nodes@[p].children@[j] == y); },
            }
        }
        assert forall|q: Option<Uid>| #[trigger] new_t.is_place(q) implies ({
            &&& new_t.children_of(q).no_duplicates()
            &&& forall|y: Uid| #[trigger] new_t.children_of(q).contains(y) <==> (
                (old_t.children_of(q).contains(y) && y != uid) || (q is None && kids.contains(y)))
        }) by {
            assert(old_t.is_place(q));
            let s = old_t.children_of(q);
            assert(s.no_duplicates()) by {
                if let Some(p) = q {
                    assert(old_t.contains(p));
                }
            }
            lemma_without(s, uid);
            let s1 = if pu == q { without(s, uid) } else { s };
            assert(!s1.contains(uid));
            if q is None {
                let r = s1 + kids;
                assert forall|y: Uid| #[trigger] r.contains(y) <==> (s1.contains(y) || kids.contains(y)) by {
                    if r.contains(y) {
                        let j = choose|j: int| 0 <= j < r.len() && r[j] == y;
                        if j < s1.len() { assert(s1[j] == y); } else { assert(kids[j - s1.len()] == y); }
                    }
                    if s1.contains(y) {
                        let j = choose|j: int| 0 <= j < s1.len() && s1[j] == y;
                        assert(r[j] == y);
                    }
                    if kids.contains(y) {
                        let j = choose|j: int| 0 <= j < kids.len() && kids[j] == y;
                        assert(r[s1.len() + j] == y);
                    }
                }
                assert forall|a: int, c: int| 0 <= a < r.len() && 0 <= c < r.len() && a != c implies r[a] != r[c] by {
                    if a < s1.len() && c >= s1.len() {
                        assert(kids.contains(r[c]));
                        assert(s1.contains(r[a]));
                        assert(s.contains(r[a]));
                    } else if c < s1.len() && a >= s1.len() {
                        assert(kids.contains(r[a]));
                        assert(s1.contains(r[c]));
                        assert(s.contains(r[c]));
                    }
                }
            }
        }
        assert forall|u: Uid| #[trigger] new_t.contains(u) implies match new_t.parent_of(u) {
            None => new_t.roots@.contains(u),
            Some(p) => new_t.contains(p) && new_t.nodes@[p].children@.contains(u),
        } by {
            assert(old_t.contains(u));
            let q = old_t.parent_of(u);
            assert(old_t.is_place(q));
            assert(old_t.children_of(q).contains(u));
            assert(new_t.is_place(None));
            if q == Some(uid) {
                assert(kids.contains(u));
            } else if let Some(p) = q {
                assert(new_t.is_place(Some(p)));
            }
        }
        assert forall|p: Uid, i: int| #![trigger new_t.nodes@[p].children@[i]]
            new_t.contains(p) && 0 <= i < new_t.nodes@[p].children@.len() implies {
                let c = new_t.nodes@[p].children@[i];
                new_t.contains(c) && new_t.parent_of(c) == Some(p)
            } by {
            let c = new_t.nodes@[p].children@[i];
            assert(new_t.is_place(Some(p)));
            assert(new_t.children_of(Some(p)).contains(c));
            assert(old_t.is_place(Some(p)));
            let so = old_t.nodes@[p].children@;
            assert(so.contains(c) && c != uid);
            let j = choose|j: int| 0 <= j < so.len() && so[j] == c;
            assert(old_t.nodes@[p].children@[j] == c);
            assert(old_t.parent_of(c) == Some(p));
            assert(new_t.contains(c));
        }
        assert forall|i: int| #![trigger new_t.roots@[i]] 0 <= i < new_t.roots@.len() implies {
                let c = new_t.roots@[i];
                new_t.contains(c) && new_t.parent_of(c) is None
            } by {
            let c = new_t.roots@[i];
            assert(new_t.is_place(None));
            assert(new_t.children_of(None).contains(c));
            if kids.contains(c) {
                assert(old_t.is_place(Some(uid)));
                assert(old_t.children_of(Some(uid)).contains(c));
                assert(old_t.contains(c) && old_t.parent_of(c) == Some(uid));
                assert(new_t.contains(c));
            } else {
                assert(old_t.is_place(None));
                assert(old_t.children_of(None).contains(c));
                assert(old_t.contains(c) && old_t.parent_of(c) is None);
                assert(c != uid);
                assert(new_t.contains(c));
            }
        }
        assert(new_t.roots@.no_duplicates()) by {
            assert(new_t.is_place(None));
        }
        assert forall|p: Uid| #[trigger] new_t.contains(p) implies new_t.nodes@[p].children@.no_duplicates() by {
            assert(new_t.is_place(Some(p)));
        }
        assert forall|u: Uid| #[trigger] new_t.contains(u) implies new_t.depth_within(u, new_t.bound()) by {
            assert(old_t.contains(u));
            Self::lemma_depth_cut(old_t, new_t, u, b);
        }
    }

    /// Post-order walk of `u` with `k` levels to go: its subtree, children first.
    pub open spec fn post_node(&self, u: Uid, k: nat) -> Seq<Uid>
        decreases k, 0nat,
    {
        if k == 0 {
            seq![u]
        } else {
            self.post_forest(self.children_of(Some(u)), (k - 1) as nat) + seq![u]
        }
    }

    /// Post-order walks of the subtrees of `s`, one after the other.
    pub open spec fn post_forest(&self, s: Seq<Uid>, k: nat) -> Seq<Uid>
        decreases k, s.len(),
    {
        if s.len() == 0 {
            Seq::empty()
        } else {
            self.post_forest(s.drop_last(), k) + self.post_node(s.last(), k)
        }
    }

    /// Pre-order walk of `u` with `k` levels to go: `u`, then its children's subtrees.
    pub open spec fn pre_node(&self, u: Uid, k: nat) -> Seq<Uid>
        decreases k, 0nat,
    {
        if k == 0 {
            seq![u]
        } else {
            seq![u] + self.pre_forest(self.children_of(Some(u)), (k - 1) as nat)
        }
    }

    /// Pre-order walks of the subtrees of `s`, one after the other.
    pub open spec fn pre_forest(&self, s: Seq<Uid>, k: nat) -> Seq<Uid>
        decreases k, s.len(),
    {
        if s.len() == 0 {
            Seq::empty()
        } else {
            self.pre_forest(s.drop_last(), k) + self.pre_node(s.last(), k)
        }
    }

    /// Walk of `u` that visits `u`, then its children's subtrees from the
    /// last child to the first.
    pub open spec fn stack_node(&self, u: Uid, k: nat) -> Seq<Uid>
        decreases k, 0nat,
    {
        if k == 0 {
            seq![u]
        } else {
            seq![u] + self.stack_forest(self.children_of(Some(u)).reverse(), (k - 1) as nat)
        }
    }

    /// Such walks of the subtrees of `s`, one after the other.
    pub open spec fn stack_forest(&self, s: Seq<Uid>, k: nat) -> Seq<Uid>
        decreases k, s.len(),
    {
        if s.len() == 0 {
            Seq::empty()
        } else {
            self.stack_forest(s.drop_last(), k) + self.stack_node(s.last(), k)
        }
    }

    /// Every entity, each after all of its descendants, roots and children in order.
    pub open spec fn post_order(&self) -> Seq<Uid> {
        self.post_forest(self.children_of(None), self.bound())
    }

    /// Every entity, each before its descendants, roots and children in order.
    pub open spec fn pre_order(&self) -> Seq<Uid> {
        self.pre_forest(self.children_of(None), self.bound())
    }

    /// Every entity, each before its descendants, roots in order and each
    /// entity's children from the last to the first.
    pub open spec fn stack_order(&self) -> Seq<Uid> {
        self.stack_forest(self.children_of(None), self.bound())
    }

    /// `u` has at least `bound - k` ancestors, so `k` levels cover its subtree.
    pub closed spec fn deep_enough(&self, u: Uid, k: nat) -> bool {
        k >= self.bound() || !self.depth_within(u, (self.bound() - k - 1) as nat)
    }

    /// A child of an entity with `k` levels to go is an entity with `k - 1` levels to go.
    pub proof fn lemma_child_deep(&self, x: Uid, k: nat, c: Uid)
        requires
            self.wf(),
            self.contains(x),
            self.deep_enough(x, k),
            self.children_of(Some(x)).contains(c),
        ensures
            k >= 1,
            self.contains(c),
            self.parent_of(c) == Some(x),
            self.deep_enough(c, (k - 1) as nat),
    {
        let s = self.nodes@[x].children@;
        let j = choose|j: int| 0 <= j < s.len() && s[j] == c;
        assert(self.nodes@[x].children@[j] == c);
        assert(self.depth_within(c, self.bound()));
        let b = self.bound();
        if k >= b {
            if k == 0 {
                assert(!self.depth_within(c, 0));
            }
            if (k - 1) as nat >= b {
            } else {
                assert(!self.depth_within(c, 0));
            }
        } else {
            assert(self.depth_within(c, (b - k) as nat) == self.depth_within(x, (b - k - 1) as nat));
            if k == 0 {
                assert(self.depth_within(c, b) == self.depth_within(x, (b - 1) as nat));
            }
        }
    }

    /// Raising the allowance keeps an ancestor reachable.
    proof fn lemma_reaches_mono(&self, u: Uid, a: Uid, j: nat, k: nat)
        requires
            j <= k,
            self.reaches(u, a, j),
        ensures
            self.reaches(u, a, k),
        decreases j,
    {
        if u != a {
            let p = self.parent_of(u)->Some_0;
            self.lemma_reaches_mono(p, a, (j - 1) as nat, (k - 1) as nat);
        }
    }

    /// The whole bound covers every subtree.
    pub proof fn lemma_deep_enough_at_bound(&self, u: Uid)
        ensures
            self.deep_enough(u, self.bound()),
    {
    }

    /// The ancestors of an entity are entities.
    pub proof fn lemma_ancestors_in(&self, u: Uid, a: Uid, k: nat)
        requires
            self.wf(),
            self.contains(u),
            self.reaches(u, a, k),
        ensures
            self.contains(a),
        decreases k,
    {
        if u != a {
            let p = self.parent_of(u)->Some_0;
            self.lemma_parent_in(u);
            self.lemma_ancestors_in(p, a, (k - 1) as nat);
        }
    }

    /// Two ancestors of one entity are ancestor and descendant.
    proof fn lemma_reaches_chain(&self, x: Uid, a: Uid, b: Uid, j1: nat, j2: nat)
        requires
            self.reaches(x, a, j1),
            self.reaches(x, b, j2),
        ensures
            self.reaches(a, b, j2) || self.reaches(b, a, j1),
        decreases j1,
    {
        if x != a && x != b {
            let p = self.parent_of(x)->Some_0;
            self.lemma_reaches_chain(p, a, b, (j1 - 1) as nat, (j2 - 1) as nat);
            if self.reaches(a, b, (j2 - 1) as nat) {
                self.lemma_reaches_mono(a, b, (j2 - 1) as nat, j2);
            } else {
                self.lemma_reaches_mono(b, a, (j1 - 1) as nat, j1);
            }
        }
    }

    /// A strict ancestor of an entity with at most `m` ancestors has at most `m - 1`.
    proof fn lemma_reaches_depth(&self, x: Uid, a: Uid, j: nat, m: nat)
        requires
            self.depth_within(x, m),
            self.reaches(x, a, j),
            x != a,
        ensures
            m > 0,
            self.depth_within(a, (m - 1) as nat),
        decreases j,
    {
        let p = self.parent_of(x)->Some_0;
        if p != a {
            self.lemma_reaches_depth(p, a, (j - 1) as nat, (m - 1) as nat);
            self.lemma_depth_mono(a, (m - 2) as nat, (m - 1) as nat);
        }
    }

    /// No entity lies below one of its own children.
    proof fn lemma_no_cycle(&self, u: Uid, c: Uid, j: nat, m: nat)
        requires
            self.depth_within(u, m),
            self.parent_of(c) == Some(u),
        ensures
            !self.reaches(u, c, j),
        decreases m,
    {
        if self.reaches(u, c, j) {
            if u == c {
                self.lemma_not_own_parent(u, m);
            } else {
                self.lemma_reaches_depth(u, c, j, m);
                self.lemma_no_cycle(u, c, j, (m - 2) as nat);
            }
        }
    }

    /// An entity strictly below `u` is below one of `u`'s children.
    proof fn lemma_reaches_child(&self, x: Uid, u: Uid, k: nat) -> (c: Uid)
        requires
            self.wf(),
            self.contains(x),
            self.reaches(x, u, k),
            x != u,
        ensures
            k > 0,
            self.contains(c),
            self.parent_of(c) == Some(u),
            self.reaches(x, c, (k - 1) as nat),
        decreases k,
    {
        let p = self.parent_of(x)->Some_0;
        if p == u {
            x
        } else {
            self.lemma_parent_in(x);
            self.lemma_reaches_child(p, u, (k - 1) as nat)
        }
    }

    /// An entity below a child of `u` is below `u`.
    proof fn lemma_reaches_through_child(&self, x: Uid, c: Uid, u: Uid, j: nat)
        requires
            self.reaches(x, c, j),
            self.parent_of(c) == Some(u),
        ensures
            self.reaches(x, u, j + 1),
        decreases j,
    {
        if x != c {
            let p = self.parent_of(x)->Some_0;
            self.lemma_reaches_through_child(p, c, u, (j - 1) as nat);
        } else {
            assert(self.reaches(u, u, j));
        }
    }

    /// Every entity lies below a root.
    proof fn lemma_below_a_root(&self, x: Uid, m: nat) -> (i: int)
        requires
            self.wf(),
            self.contains(x),
            self.depth_within(x, m),
        ensures
            0 <= i < self.children_of(None).len(),
            self.reaches(x, self.children_of(None)[i], m),
        decreases m,
    {
        match self.parent_of(x) {
            None => {
                let i = self.roots@.index_of(x);
                assert(self.roots@.contains(x));
                i
            },
            Some(p) => {
                self.lemma_parent_in(x);
                self.lemma_below_a_root(p, (m - 1) as nat)
            },
        }
    }

    /// The walk of a subtree, by kind: 0 post-order, 1 pre-order, else the
    /// order `bfs` yields.
    spec fn walk_node(&self, w: int, u: Uid, k: nat) -> Seq<Uid> {
        if w == 0 {
            self.post_node(u, k)
        } else if w == 1 {
            self.pre_node(u, k)
        } else {
            self.stack_node(u, k)
        }
    }

    /// The walks of the subtrees of `s`, by kind.
    spec fn walk_forest(&self, w: int, s: Seq<Uid>, k: nat) -> Seq<Uid> {
        if w == 0 {
            self.post_forest(s, k)
        } else if w == 1 {
            self.pre_forest(s, k)
        } else {
            self.stack_forest(s, k)
        }
    }

    /// The children of `u` in the order a walk of kind `w` takes them.
    spec fn walk_kids(&self, w: int, u: Uid) -> Seq<Uid> {
        if w == 0 || w == 1 {
            self.children_of(Some(u))
        } else {
            self.children_of(Some(u)).reverse()
        }
    }

    /// `s` lists, without repeats, children of `q` whose subtrees `k` levels cover.
    spec fn forest_ok(&self, s: Seq<Uid>, q: Option<Uid>, k: nat) -> bool {
        &&& s.no_duplicates()
        &&& forall|i: int| #![trigger s[i]] 0 <= i < s.len() ==> {
            &&& self.contains(s[i])
            &&& self.parent_of(s[i]) == q
            &&& self.deep_enough(s[i], k)
        }
    }

    /// The walk of a subtree lists the subtree, each entity once.
    proof fn lemma_walk_node(&self, w: int, u: Uid, k: nat)
        requires
            self.wf(),
            self.contains(u),
            self.deep_enough(u, k),
        ensures
            self.walk_node(w, u, k).no_duplicates(),
            forall|x: Uid| #[trigger] self.walk_node(w, u, k).contains(x)
                <==> (self.contains(x) && self.reaches(x, u, k)),
        decreases k, 0nat,
    {
        let walk = self.walk_node(w, u, k);
        if k == 0 {
            assert(walk =~= seq![u]);
            assert forall|x: Uid| #[trigger] walk.contains(x) <==> (self.contains(x) && self.reaches(x, u, k)) by {
                if walk.contains(x) {
                    assert(walk[0] == x);
                }
                if x == u {
                    assert(walk[0] == x);
                }
            }
        } else {
            let kids = self.walk_kids(w, u);
            let cs = self.children_of(Some(u));
            let forest = self.walk_forest(w, kids, (k - 1) as nat);
            assert(self.contains(u));
            assert(cs.no_duplicates());
            assert forall|i: int| #![trigger kids[i]] 0 <= i < kids.len() implies {
                &&& self.contains(kids[i])
                &&& self.parent_of(kids[i]) == Some(u)
                &&& self.deep_enough(kids[i], (k - 1) as nat)
            } by {
                if w == 0 || w == 1 {
                    assert(cs[i] == kids[i]);
                } else {
                    assert(cs[cs.len() - 1 - i] == kids[i]);
                }
                assert(cs.contains(kids[i]));
                self.lemma_child_deep(u, k, kids[i]);
            }
            if !(w == 0 || w == 1) {
                assert forall|a: int, b: int| 0 <= a < kids.len() && 0 <= b < kids.len() && a != b
                    implies kids[a] != kids[b] by {
                    assert(kids[a] == cs[cs.len() - 1 - a]);
                    assert(kids[b] == cs[cs.len() - 1 - b]);
                }
            }
            assert(self.forest_ok(kids, Some(u), (k - 1) as nat));
            self.lemma_walk_forest(w, kids, Some(u), (k - 1) as nat);
            if w == 0 {
                assert(walk =~= forest + seq![u]);
            } else {
                assert(walk =~= seq![u] + forest);
            }
            assert forall|x: Uid| #[trigger] walk.contains(x) <==> (x == u || forest.contains(x)) by {
                if walk.contains(x) {
                    let j = choose|j: int| 0 <= j < walk.len() && walk[j] == x;
                    if w == 0 {
                        if j < forest.len() {
                            assert(forest[j] == x);
                        }
                    } else {
                        if j > 0 {
                            assert(forest[j - 1] == x);
                        }
                    }
                }
                if x == u {
                    if w == 0 {
                        assert(walk[forest.len() as int] == x);
                    } else {
                        assert(walk[0] == x);
                    }
                }
                if forest.contains(x) {
                    let j = choose|j: int| 0 <= j < forest.len() && forest[j] == x;
                    if w == 0 {
                        assert(walk[j] == x);
                    } else {
                        assert(walk[j + 1] == x);
                    }
                }
            }
            assert forall|x: Uid| #[trigger] walk.contains(x)
                <==> (self.contains(x) && self.reaches(x, u, k)) by {
                if forest.contains(x) {
                    let i = choose|i: int| 0 <= i < kids.len() && self.contains(x)
                        && self.reaches(x, kids[i], (k - 1) as nat);
                    self.lemma_reaches_through_child(x, kids[i], u, (k - 1) as nat);
                }
                if self.contains(x) && self.reaches(x, u, k) && x != u {
                    let c = self.lemma_reaches_child(x, u, k);
                    assert(cs.contains(c));
                    let j = choose|j: int| 0 <= j < cs.len() && cs[j] == c;
                    if w == 0 || w == 1 {
                        assert(kids[j] == c);
                    } else {
                        assert(kids[cs.len() - 1 - j] == c);
                    }
                }
            }
            if forest.contains(u) {
                let i = choose|i: int| 0 <= i < kids.len() && self.contains(u)
                    && self.reaches(u, kids[i], (k - 1) as nat);
                self.lemma_no_cycle(u, kids[i], (k - 1) as nat, self.bound());
            }
            if w == 0 {
                lemma_no_duplicates_append(forest, seq![u]);
            } else {
                lemma_no_duplicates_append(seq![u], forest);
            }
        }
    }

    /// The walks of sibling subtrees list those subtrees, each entity once.
    proof fn lemma_walk_forest(&self, w: int, s: Seq<Uid>, q: Option<Uid>, k: nat)
        requires
            self.wf(),
            self.forest_ok(s, q, k),
        ensures
            self.walk_forest(w, s, k).no_duplicates(),
            forall|x: Uid| #[trigger] self.walk_forest(w, s, k).contains(x) <==> exists|i: int|
                0 <= i < s.len() && self.contains(x) && self.reaches(x, s[i], k),
        decreases k, s.len(),
    {
        let walk = self.walk_forest(w, s, k);
        if s.len() == 0 {
            assert(walk =~= Seq::<Uid>::empty());
        } else {
            let init = s.drop_last();
            let last = s.last();
            assert(self.forest_ok(init, q, k)) by {
                assert forall|i: int| #![trigger init[i]] 0 <= i < init.len() implies {
                    &&& self.contains(init[i])
                    &&& self.parent_of(init[i]) == q
                    &&& self.deep_enough(init[i], k)
                } by {
                    assert(init[i] == s[i]);
                }
            }
            assert(s[s.len() - 1] == last);
            self.lemma_walk_forest(w, init, q, k);
            self.lemma_walk_node(w, last, k);
            let a = self.walk_forest(w, init, k);
            let b = self.walk_node(w, last, k);
            assert(walk =~= a + b);
            assert forall|x: Uid| #[trigger] walk.contains(x) <==> (a.contains(x) || b.contains(x)) by {
                if walk.contains(x) {
                    let j = choose|j: int| 0 <= j < walk.len() && walk[j] == x;
                    if j < a.len() {
                        assert(a[j] == x);
                    } else {
                        assert(b[j - a.len()] == x);
                    }
                }
                if a.contains(x) {
                    let j = choose|j: int| 0 <= j < a.len() && a[j] == x;
                    assert(walk[j] == x);
                }
                if b.contains(x) {
                    let j = choose|j: int| 0 <= j < b.len() && b[j] == x;
                    assert(walk[a.len() + j] == x);
                }
            }
            assert forall|x: Uid| #[trigger] walk.contains(x) <==> exists|i: int|
                0 <= i < s.len() && self.contains(x) && self.reaches(x, s[i], k) by {
                if a.contains(x) {
                    let i = choose|i: int| 0 <= i < init.len() && self.contains(x) && self.reaches(x, init[i], k);
                    assert(s[i] == init[i]);
                }
                if exists|i: int| 0 <= i < s.len() && self.contains(x) && self.reaches(x, s[i], k) {
                    let i = choose|i: int| 0 <= i < s.len() && self.contains(x) && self.reaches(x, s[i], k);
                    if i < init.len() {
                        assert(init[i] == s[i]);
                    }
                }
            }
            assert forall|x: Uid| a.contains(x) implies !b.contains(x) by {
                if b.contains(x) {
                    let i = choose|i: int| 0 <= i < init.len() && self.contains(x) && self.reaches(x, init[i], k);
                    let y = init[i];
                    assert(y == s[i]);
                    assert(y != last);
                    self.lemma_reaches_chain(x, y, last, k, k);
                    if self.reaches(y, last, k) {
                        self.lemma_sibling_below(y, last, q, k);
                    } else {
                        self.lemma_sibling_below(last, y, q, k);
                    }
                }
            }
            lemma_no_duplicates_append(a, b);
        }
    }

    /// No entity lies strictly below a sibling.
    proof fn lemma_sibling_below(&self, y: Uid, z: Uid, q: Option<Uid>, k: nat)
        requires
            self.wf(),
            self.contains(y),
            self.contains(z),
            y != z,
            self.parent_of(y) == q,
            self.parent_of(z) == q,
        ensures
            !self.reaches(y, z, k),
    {
        if self.reaches(y, z, k) {
            let p = self.parent_of(y)->Some_0;
            self.lemma_parent_in(y);
            assert(self.reaches(p, z, (k - 1) as nat));
            self.lemma_no_cycle(p, z, (k - 1) as nat, self.bound());
        }
    }

    /// In `s`, each entity comes before its parent (`w == 0`), or after it.
    spec fn ordered(&self, w: int, s: Seq<Uid>) -> bool {
        forall|i: int, j: int| #![trigger s[i], s[j]]
            0 <= i < s.len() && 0 <= j < s.len() && self.parent_of(s[i]) == Some(s[j])
                ==> if w == 0 { i < j } else { j < i }
    }

    /// Lists ordered alike, with no parent of one in the other, stay ordered when joined.
    proof fn lemma_ordered_append(&self, w: int, a: Seq<Uid>, b: Seq<Uid>)
        requires
            self.ordered(w, a),
            self.ordered(w, b),
            forall|x: Uid, y: Uid| a.contains(x) && b.contains(y)
                ==> self.parent_of(x) != Some(y) && self.parent_of(y) != Some(x),
        ensures
            self.ordered(w, a + b),
    {
        let c = a + b;
        assert forall|i: int, j: int| #![trigger c[i], c[j]]
            0 <= i < c.len() && 0 <= j < c.len() && self.parent_of(c[i]) == Some(c[j])
                implies if w == 0 { i < j } else { j < i } by {
            if i < a.len() && j < a.len() {
                assert(a[i] == c[i] && a[j] == c[j]);
            } else if i >= a.len() && j >= a.len() {
                assert(b[i - a.len()] == c[i] && b[j - a.len()] == c[j]);
            } else if i < a.len() {
                assert(a[i] == c[i] && b[j - a.len()] == c[j]);
                assert(a.contains(c[i]) && b.contains(c[j]));
            } else {
                assert(b[i - a.len()] == c[i] && a[j] == c[j]);
                assert(a.contains(c[j]) && b.contains(c[i]));
            }
        }
    }

    /// The parent of an entity strictly below `y` is below `y`.
    proof fn lemma_parent_below(&self, x: Uid, y: Uid, k: nat)
        requires
            self.reaches(x, y, k),
            x != y,
        ensures
            self.parent_of(x) matches Some(p) && self.reaches(p, y, k),
    {
        let p = self.parent_of(x)->Some_0;
        self.lemma_reaches_mono(p, y, (k - 1) as nat, k);
    }

    /// No entity lies below two siblings.
    proof fn lemma_below_one_sibling(&self, z: Uid, y1: Uid, y2: Uid, q: Option<Uid>, k: nat)
        requires
            self.wf(),
            self.contains(y1),
            self.contains(y2),
            y1 != y2,
            self.parent_of(y1) == q,
            self.parent_of(y2) == q,
            self.reaches(z, y1, k),
        ensures
            !self.reaches(z, y2, k),
    {
        if self.reaches(z, y2, k) {
            self.lemma_reaches_chain(z, y1, y2, k, k);
            self.lemma_sibling_below(y1, y2, q, k);
            self.lemma_sibling_below(y2, y1, q, k);
        }
    }

    /// A walk of a subtree puts children and parents in its order.
    proof fn lemma_walk_node_ordered(&self, w: int, u: Uid, k: nat)
        requires
            self.wf(),
            self.contains(u),
            self.deep_enough(u, k),
        ensures
            self.ordered(w, self.walk_node(w, u, k)),
        decreases k, 0nat,
    {
        let walk = self.walk_node(w, u, k);
        self.lemma_not_own_parent(u, self.bound());
        if k == 0 {
            assert(walk =~= seq![u]);
        } else {
            let kids = self.walk_kids(w, u);
            let cs = self.children_of(Some(u));
            let forest = self.walk_forest(w, kids, (k - 1) as nat);
            assert forall|i: int| #![trigger kids[i]] 0 <= i < kids.len() implies {
                &&& self.contains(kids[i])
                &&& self.parent_of(kids[i]) == Some(u)
                &&& self.deep_enough(kids[i], (k - 1) as nat)
            } by {
                if w == 0 || w == 1 {
                    assert(cs[i] == kids[i]);
                } else {
                    assert(cs[cs.len() - 1 - i] == kids[i]);
                }
                assert(cs.contains(kids[i]));
                self.lemma_child_deep(u, k, kids[i]);
            }
            if !(w == 0 || w == 1) {
                assert forall|a: int, b: int| 0 <= a < kids.len() && 0 <= b < kids.len() && a != b
                    implies kids[a] != kids[b] by {
                    assert(kids[a] == cs[cs.len() - 1 - a]);
                    assert(kids[b] == cs[cs.len() - 1 - b]);
                }
            }
            assert(self.forest_ok(kids, Some(u), (k - 1) as nat));
            self.lemma_walk_forest(w, kids, Some(u), (k - 1) as nat);
            self.lemma_walk_forest_ordered(w, kids, Some(u), (k - 1) as nat);
            if let Some(p) = self.parent_of(u) {
                if forest.contains(p) {
                    let i = choose|i: int| 0 <= i < kids.len() && self.contains(p)
                        && self.reaches(p, kids[i], (k - 1) as nat);
                    self.lemma_reaches_through_child(p, kids[i], u, (k - 1) as nat);
                    self.lemma_parent_in(u);
                    self.lemma_no_cycle(p, u, k, self.bound());
                }
            }
            if w == 0 {
                assert(walk =~= forest + seq![u]);
            } else {
                assert(walk =~= seq![u] + forest);
            }
            let n = forest.len() as int;
            assert forall|i: int, j: int| #![trigger walk[i], walk[j]]
                0 <= i < walk.len() && 0 <= j < walk.len() && self.parent_of(walk[i]) == Some(walk[j])
                    implies if w == 0 { i < j } else { j < i } by {
                if w == 0 {
                    if i < n && j < n {
                        assert(forest[i] == walk[i] && forest[j] == walk[j]);
                    } else if i == n && j < n {
                        assert(forest[j] == walk[j]);
                        assert(forest.contains(walk[j]));
                    }
                } else {
                    if i > 0 && j > 0 {
                        assert(forest[i - 1] == walk[i] && forest[j - 1] == walk[j]);
                    } else if i == 0 && j > 0 {
                        assert(forest[j - 1] == walk[j]);
                        assert(forest.contains(walk[j]));
                    }
                }
            }
        }
    }

    /// The walks of sibling subtrees put children and parents in order.
    proof fn lemma_walk_forest_ordered(&self, w: int, s: Seq<Uid>, q: Option<Uid>, k: nat)
        requires
            self.wf(),
            self.forest_ok(s, q, k),
        ensures
            self.ordered(w, self.walk_forest(w, s, k)),
        decreases k, s.len(),
    {
        let walk = self.walk_forest(w, s, k);
        if s.len() == 0 {
            assert(walk =~= Seq::<Uid>::empty());
        } else {
            let init = s.drop_last();
            let last = s.last();
            assert(self.forest_ok(init, q, k)) by {
                assert forall|i: int| #![trigger init[i]] 0 <= i < init.len() implies {
                    &&& self.contains(init[i])
                    &&& self.parent_of(init[i]) == q
                    &&& self.deep_enough(init[i], k)
                } by {
                    assert(init[i] == s[i]);
                }
            }
            assert(s[s.len() - 1] == last);
            self.lemma_walk_forest(w, init, q, k);
            self.lemma_walk_node(w, last, k);
            self.lemma_walk_forest_ordered(w, init, q, k);
            self.lemma_walk_node_ordered(w, last, k);
            let a = self.walk_forest(w, init, k);
            let b = self.walk_node(w, last, k);
            assert(walk =~= a + b);
            assert forall|x: Uid, y: Uid| a.contains(x) && b.contains(y)
                implies self.parent_of(x) != Some(y) && self.parent_of(y) != Some(x) by {
                let i = choose|i: int| 0 <= i < init.len() && self.contains(x) && self.reaches(x, init[i], k);
                let s1 = init[i];
                assert(s1 == s[i]);
                assert(s1 != last);
                if self.parent_of(x) == Some(y) {
                    if x == s1 {
                        if let Some(qq) = q {
                            self.lemma_parent_in(s1);
                            self.lemma_no_cycle(qq, last, k, self.bound());
                        }
                    } else {
                        self.lemma_parent_below(x, s1, k);
                        self.lemma_below_one_sibling(y, s1, last, q, k);
                    }
                }
                if self.parent_of(y) == Some(x) {
                    if y == last {
                        if let Some(qq) = q {
                            self.lemma_parent_in(last);
                            self.lemma_no_cycle(qq, s1, k, self.bound());
                        }
                    } else {
                        self.lemma_parent_below(y, last, k);
                        self.lemma_below_one_sibling(x, s1, last, q, k);
                    }
                }
            }
            self.lemma_ordered_append(w, a, b);
        }
    }

    /// The walk of kind `w` over all roots lists every entity once.
    proof fn lemma_walk_covers(&self, w: int, roots: Seq<Uid>)
        requires
            self.wf(),
            roots == self.children_of(None),
            self.forest_ok(roots, None, self.bound()),
        ensures
            self.walk_forest(w, roots, self.bound()).no_duplicates(),
            self.walk_forest(w, roots, self.bound()).to_set() == self.entities(),
    {
        let b = self.bound();
        self.lemma_walk_forest(w, roots, None, b);
        let walk = self.walk_forest(w, roots, b);
        assert forall|x: Uid| walk.to_set().contains(x) <==> self.entities().contains(x) by {
            if self.contains(x) {
                let i = self.lemma_below_a_root(x, b);
                assert(walk.contains(x));
            }
        }
        assert(walk.to_set() =~= self.entities());
    }

    /// Each of the walks that `dfs_post`, `dfs_pre` and `bfs` return lists
    /// every entity of a well-formed tree exactly once.
    pub proof fn lemma_walks_list_each_entity_once(&self)
        requires
            self.wf(),
        ensures
            self.post_order().no_duplicates(),
            self.post_order().to_set() == self.entities(),
            self.pre_order().no_duplicates(),
            self.pre_order().to_set() == self.entities(),
            self.stack_order().no_duplicates(),
            self.stack_order().to_set() == self.entities(),
    {
        let roots = self.children_of(None);
        let b = self.bound();
        assert forall|i: int| #![trigger roots[i]] 0 <= i < roots.len() implies {
            &&& self.contains(roots[i])
            &&& self.parent_of(roots[i]) == None::<Uid>
            &&& self.deep_enough(roots[i], b)
        } by {
            assert(self.roots@[i] == roots[i]);
        }
        assert(self.forest_ok(roots, None, b));
        self.lemma_walk_covers(0, roots);
        self.lemma_walk_covers(1, roots);
        self.lemma_walk_covers(2, roots);
        assert(self.walk_forest(0, roots, b) == self.post_order());
        assert(self.walk_forest(1, roots, b) == self.pre_order());
        assert(self.walk_forest(2, roots, b) == self.stack_order());
    }

    /// Deleting an entity just added, before anything was put under it,
    /// gives back the hierarchy from before: the same entities, parents and
    /// child lists.
    ///
    /// `added` is the tree once `parent` has added `child` (new to `before`)
    /// under `parent` at `index`; `after` is `added` once `delete` has taken
    /// `child` out. The requirements on them are what those calls ensure.
    pub proof fn lemma_delete_undoes_parent(
        before: &Tree,
        added: &Tree,
        after: &Tree,
        child: Uid,
        parent: Option<Uid>,
        index: Option<usize>,
    )
        requires
            before.wf(),
            !before.contains(child),
            before.is_place(parent),
            index matches Some(i) ==> i <= before.children_of(parent).len(),
            added.entities() == before.entities().insert(child),
            added.parent_of(child) == parent,
            forall|u: Uid| #[trigger] before.contains(u) && u != child
                ==> added.parent_of(u) == before.parent_of(u),
            forall|q: Option<Uid>| #[trigger] added.is_place(q) && q != Some(child)
                ==> added.children_of(q) == before.moved_children(q, child, parent, index),
            added.children_of(Some(child)) == Seq::<Uid>::empty(),
            after.entities() == added.entities().remove(child),
            forall|u: Uid| #[trigger] after.contains(u) ==> after.parent_of(u) == added.parent_after_delete(child, u),
            forall|q: Option<Uid>| #[trigger] after.is_place(q) ==> after.children_of(q) == added.children_after_delete(child, q),
        ensures
            after.entities() == before.entities(),
            forall|u: Uid| #[trigger] after.contains(u) ==> after.parent_of(u) == before.parent_of(u),
            forall|q: Option<Uid>| #[trigger] after.is_place(q) ==> after.children_of(q) == before.children_of(q),
    {
        assert(after.entities() =~= before.entities());
        assert forall|u: Uid| #[trigger] after.contains(u) implies after.parent_of(u) == before.parent_of(u) by {
            assert(after.entities().contains(u));
            assert(before.contains(u) && u != child);
            before.lemma_parent_in(u);
            assert(added.parent_of(u) == before.parent_of(u));
        }
        assert forall|q: Option<Uid>| #[trigger] after.is_place(q) implies after.children_of(q) == before.children_of(q) by {
            if let Some(p) = q {
                assert(after.entities().contains(p));
                assert(before.contains(p));
            }
            assert(added.is_place(q)) by {
                if let Some(p) = q {
                    assert(added.entities().contains(p));
                }
            }
            assert(q != Some(child));
            let bc = before.children_of(q);
            assert(!bc.contains(child)) by {
                if bc.contains(child) {
                    let k = choose|k: int| 0 <= k < bc.len() && bc[k] == child;
                    match q {
                        None => {
                            assert(before.roots@[k] == child);
                        },
                        Some(p) => {
                            assert(before.nodes@[p].children@[k] == child);
                        },
                    }
                }
            }
            if q == parent {
                lemma_without_put_at(bc, index, child);
            }
            if q is None {
                assert(added.children_after_delete(child, q) =~= bc);
            }
        }
    }

    /// In the walk that `dfs_post` returns each entity comes before its
    /// parent; in those that `dfs_pre` and `bfs` return, after it.
    pub proof fn lemma_walks_order_parents(&self)
        requires
            self.wf(),
        ensures
            forall|i: int, j: int| #![trigger self.post_order()[i], self.post_order()[j]]
                0 <= i < self.post_order().len() && 0 <= j < self.post_order().len()
                && self.parent_of(self.post_order()[i]) == Some(self.post_order()[j]) ==> i < j,
            forall|i: int, j: int| #![trigger self.pre_order()[i], self.pre_order()[j]]
                0 <= i < self.pre_order().len() && 0 <= j < self.pre_order().len()
                && self.parent_of(self.pre_order()[i]) == Some(self.pre_order()[j]) ==> j < i,
            forall|i: int, j: int| #![trigger self.stack_order()[i], self.stack_order()[j]]
                0 <= i < self.stack_order().len() && 0 <= j < self.stack_order().len()
                && self.parent_of(self.stack_order()[i]) == Some(self.stack_order()[j]) ==> j < i,
    {
        let roots = self.children_of(None);
        let b = self.bound();
        assert forall|i: int| #![trigger roots[i]] 0 <= i < roots.len() implies {
            &&& self.contains(roots[i])
            &&& self.parent_of(roots[i]) == None::<Uid>
            &&& self.deep_enough(roots[i], b)
        } by {
            assert(self.roots@[i] == roots[i]);
        }
        assert(self.forest_ok(roots, None, b));
        self.lemma_walk_forest_ordered(0, roots, None, b);
        self.lemma_walk_forest_ordered(1, roots, None, b);
        self.lemma_walk_forest_ordered(2, roots, None, b);
        assert(self.walk_forest(0, roots, b) == self.post_order());
        assert(self.walk_forest(1, roots, b) == self.pre_order());
        assert(self.walk_forest(2, roots, b) == self.stack_order());
    }

    /// Appends the post-order walk of `u`.
    fn visit_post(&self, u: Uid, out: &mut Vec<Uid>, Ghost(k): Ghost<nat>)
        requires
            self.wf(),
            self.contains(u),
            self.deep_enough(u, k),
        ensures
            final(out)@ == old(out)@ + self.post_node(u, k),
        decreases k,
    {
        let ghost start = out@;
        let children = &self.nodes.get(&u).unwrap().children;
        let ghost cs = self.children_of(Some(u));
        assert(children@ == cs);
        let mut i: usize = 0;
        while i < children.len()
            invariant
                self.wf(),
                self.contains(u),
                self.deep_enough(u, k),
                children@ == cs,
                cs == self.children_of(Some(u)),
                i <= cs.len(),
                k > 0 || i == 0,
                out@ == start + self.post_forest(cs.take(i as int), (k - 1) as nat),
            decreases cs.len() - i,
        {
            let c = children[i];
            proof {
                assert(cs.contains(c));
                self.lemma_child_deep(u, k, c);
            }
            self.visit_post(c, out, Ghost((k - 1) as nat));
            proof {
                assert(cs.take(i + 1).drop_last() =~= cs.take(i as int));
                assert(cs.take(i + 1).last() == c);
            }
            i = i + 1;
        }
        proof {
            assert(cs.take(cs.len() as int) =~= cs);
            if k == 0 {
                assert(cs.len() == 0);
                assert(cs.take(0) =~= Seq::<Uid>::empty());
            }
        }
        out.push(u);
    }

    /// Appends the pre-order walk of `u`.
    fn visit_pre(&self, u: Uid, out: &mut Vec<Uid>, Ghost(k): Ghost<nat>)
        requires
            self.wf(),
            self.contains(u),
            self.deep_enough(u, k),
        ensures
            final(out)@ == old(out)@ + self.pre_node(u, k),
        decreases k,
    {
        out.push(u);
        let ghost start = out@;
        let children = &self.nodes.get(&u).unwrap().children;
        let ghost cs = self.children_of(Some(u));
        assert(children@ == cs);
        let mut i: usize = 0;
        while i < children.len()
            invariant
                self.wf(),
                self.contains(u),
                self.deep_enough(u, k),
                children@ == cs,
                cs == self.children_of(Some(u)),
                i <= cs.len(),
                k > 0 || i == 0,
                out@ == start + self.pre_forest(cs.take(i as int), (k - 1) as nat),
            decreases cs.len() - i,
        {
            let c = children[i];
            proof {
                assert(cs.contains(c));
                self.lemma_child_deep(u, k, c);
            }
            self.visit_pre(c, out, Ghost((k - 1) as nat));
            proof {
                assert(cs.take(i + 1).drop_last() =~= cs.take(i as int));
                assert(cs.take(i + 1).last() == c);
            }
            i = i + 1;
        }
        proof {
            assert(cs.take(cs.len() as int) =~= cs);
            if k == 0 {
                assert(cs.len() == 0);
                assert(cs.take(0) =~= Seq::<Uid>::empty());
            }
            assert(out@ =~= old(out)@ + self.pre_node(u, k));
        }
    }

    /// Appends the walk of `u` that takes children from the last to the first.
    fn visit_stack(&self, u: Uid, out: &mut Vec<Uid>, Ghost(k): Ghost<nat>)
        requires
            self.wf(),
            self.contains(u),
            self.deep_enough(u, k),
        ensures
            final(out)@ == old(out)@ + self.stack_node(u, k),
        decreases k,
    {
        out.push(u);
        let ghost start = out@;
        let children = &self.nodes.get(&u).unwrap().children;
        let ghost cs = self.children_of(Some(u));
        let ghost rs = cs.reverse();
        assert(children@ == cs);
        let mut i: usize = 0;
        while i < children.len()
            invariant
                self.wf(),
                self.contains(u),
                self.deep_enough(u, k),
                children@ == cs,
                cs == self.children_of(Some(u)),
                rs == cs.reverse(),
                i <= cs.len(),
                k > 0 || i == 0,
                out@ == start + self.stack_forest(rs.take(i as int), (k - 1) as nat),
            decreases cs.len() - i,
        {
            let c = children[children.len() - 1 - i];
            proof {
                assert(cs.contains(c));
                assert(rs[i as int] == c);
                self.lemma_child_deep(u, k, c);
            }
            self.visit_stack(c, out, Ghost((k - 1) as nat));
            proof {
                assert(rs.take(i + 1).drop_last() =~= rs.take(i as int));
                assert(rs.take(i + 1).last() == c);
            }
            i = i + 1;
        }
        proof {
            assert(rs.take(rs.len() as int) =~= rs);
            if k == 0 {
                assert(cs.len() == 0);
                assert(rs.take(0) =~= Seq::<Uid>::empty());
            }
            assert(out@ =~= old(out)@ + self.stack_node(u, k));
        }
    }

    /// Every entity in post-order: each after all of its descendants.
    pub fn dfs_post(&self) -> (r: Vec<Uid>)
        requires
            self.wf(),
        ensures
            r@ == self.post_order(),
    {
        let mut out: Vec<Uid> = Vec::new();
        let ghost rs = self.roots@;
        let mut i: usize = 0;
        while i < self.roots.len()
            invariant
                self.wf(),
                rs == self.roots@,
                i <= rs.len(),
                out@ == self.post_forest(rs.take(i as int), self.bound()),
            decreases rs.len() - i,
        {
            let r = self.roots[i];
            proof {
                assert(self.roots@[i as int] == r);
            }
            self.visit_post(r, &mut out, Ghost(self.bound()));
            proof {
                assert(rs.take(i + 1).drop_last() =~= rs.take(i as int));
            }
            i = i + 1;
        }
        proof {
            assert(rs.take(rs.len() as int) =~= rs);
        }
        out
    }

    /// Every entity in pre-order: each before its descendants.
    pub fn dfs_pre(&self) -> (r: Vec<Uid>)
        requires
            self.wf(),
        ensures
            r@ == self.pre_order(),
    {
        let mut out: Vec<Uid> = Vec::new();
        let ghost rs = self.roots@;
        let mut i: usize = 0;
        while i < self.roots.len()
            invariant
                self.wf(),
                rs == self.roots@,
                i <= rs.len(),
                out@ == self.pre_forest(rs.take(i as int), self.bound()),
            decreases rs.len() - i,
        {
            let r = self.roots[i];
            proof {
                assert(self.roots@[i as int] == r);
            }
            self.visit_pre(r, &mut out, Ghost(self.bound()));
            proof {
                assert(rs.take(i + 1).drop_last() =~= rs.take(i as int));
            }
            i = i + 1;
        }
        proof {
            assert(rs.take(rs.len() as int) =~= rs);
        }
        out
    }

    /// Every entity in the order of a queue that takes from the front and
    /// puts each visited entity's children at the front: roots in order,
    /// each entity before its descendants, children from the last to the first.
    pub fn bfs(&self) -> (r: Vec<Uid>)
        requires
            self.wf(),
        ensures
            r@ == self.stack_order(),
    {
        let mut out: Vec<Uid> = Vec::new();
        let ghost rs = self.roots@;
        let mut i: usize = 0;
        while i < self.roots.len()
            invariant
                self.wf(),
                rs == self.roots@,
                i <= rs.len(),
                out@ == self.stack_forest(rs.take(i as int), self.bound()),
            decreases rs.len() - i,
        {
            let r = self.roots[i];
            proof {
                assert(self.roots@[i as int] == r);
            }
            self.visit_stack(r, &mut out, Ghost(self.bound()));
            proof {
                assert(rs.take(i + 1).drop_last() =~= rs.take(i as int));
            }
            i = i + 1;
        }
        proof {
            assert(rs.take(rs.len() as int) =~= rs);
        }
        out
    }
}

impl Default for Tree {
    /// The empty hierarchy.
    fn default() -> (t: Self)
        ensures
            t.wf(),
            t.entities() == Set::<Uid>::empty(),
            t.children_of(None) == Seq::<Uid>::empty(),
    {
        Self::new()
    }
}

impl Delete for Tree {
    open spec fn holds(&self, uid: Uid) -> bool {
        self.contains(uid)
    }

    open spec fn valid(&self) -> bool {
        self.wf()
    }

    /// An entity can be taken out when it has no children, or is not there.
    open spec fn deletable(&self, uid: Uid) -> bool {
        self.contains(uid) ==> self.children_of(Some(uid)).len() == 0
    }

    /// `uid` leaves the hierarchy and its parent's child list.
    open spec fn deletes(&self, uid: Uid, after: Self) -> bool {
        &&& after.entities() == self.entities().remove(uid)
        &&& self.contains(uid) ==> forall|u: Uid| #[trigger] after.contains(u)
            ==> after.parent_of(u) == self.parent_after_delete(uid, u)
        &&& self.contains(uid) ==> forall|q: Option<Uid>| #[trigger] after.is_place(q)
            ==> after.children_of(q) == self.children_after_delete(uid, q)
        &&& !self.contains(uid) ==> forall|u: Uid| #[trigger] after.contains(u)
            ==> after.parent_of(u) == self.parent_of(u)
        &&& !self.contains(uid) ==> forall|q: Option<Uid>| #[trigger] after.is_place(q)
            ==> after.children_of(q) == self.children_of(q)
    }

    /// Takes `uid`, which has no children, out of the hierarchy.
    fn delete(&mut self, uid: &Uid) {
        let ghost old_t = *self;
        let uid = *uid;
        match self.nodes.remove(&uid) {
            None => {
                assert(self.nodes@ == old_t.nodes@);
                proof { Self::lemma_same_view(&old_t, self); }
            },
            Some(node) => {
                let ghost kids = node.children@;
                let ghost pu = node.parent;
                proof {
                    assert(old_t.contains(uid));
                    old_t.lemma_not_own_parent(uid, old_t.bound());
                    old_t.lemma_parent_in(uid);
                    assert(old_t.is_place(pu));
                    assert(old_t.children_of(pu).contains(uid));
                    assert(old_t.children_of(pu).no_duplicates()) by {
                        if let Some(p) = pu {
                            assert(old_t.contains(p));
                        }
                    }
                    if let Some(p) = pu {
                        assert(self.nodes@.contains_key(p));
                    }
                    assert(self.children_of(pu) == old_t.children_of(pu));
                }
                self.remove_sibling(node.parent, uid);
                let ghost mid = *self;
                proof {
                    assert forall|c: Uid| #[trigger] kids.contains(c) implies old_t.contains(c)
                        && old_t.parent_of(c) == Some(uid) && c != uid by {
                        let j = choose|j: int| 0 <= j < kids.len() && kids[j] == c;
                        assert(old_t.nodes@[uid].children@[j] == c);
                        old_t.lemma_not_own_parent(c, old_t.bound());
                    }
                }
                let n = node.children.len();
                let mut i: usize = 0;
                while i < n
                    invariant
                        n == kids.len(),
                        node.children@ == kids,
                        i <= n,
                        self.nodes@.dom() == mid.nodes@.dom(),
                        self.bound == mid.bound,
                        forall|c: Uid| #[trigger] kids.contains(c) ==> old_t.contains(c)
                            && old_t.parent_of(c) == Some(uid) && c != uid,
                        mid.nodes@.dom() == old_t.nodes@.dom().remove(uid),
                        forall|k: Uid| #[trigger] self.nodes@.contains_key(k) ==> self.nodes@[k].children
                            == mid.nodes@[k].children,
                        forall|k: Uid| #[trigger] self.nodes@.contains_key(k) ==> self.nodes@[k].parent
                            == if kids.take(i as int).contains(k) { None } else { mid.nodes@[k].parent },
                        self.roots@ == mid.roots@ + kids.take(i as int),
                    decreases n - i,
                {
                    let c = node.children[i];
                    proof {
                        assert(kids.contains(c));
                        assert(self.nodes@.contains_key(c));
                    }
                    let ghost before = *self;
                    self.set_parent(c, None);
                    self.roots.push(c);
                    proof {
                        assert(kids.take(i + 1) =~= kids.take(i as int).push(c));
                        assert forall|k: Uid| #[trigger] self.nodes@.contains_key(k) implies self.nodes@[k].parent
                            == if kids.take(i + 1).contains(k) { None } else { mid.nodes@[k].parent } by {
                            assert(before.nodes@.contains_key(k));
                            if k != c {
                                assert(kids.take(i + 1).contains(k) == kids.take(i as int).contains(k));
                            } else {
                                assert(kids.take(i + 1)[i as int] == c);
                            }
                        }
                        assert(self.roots@ =~= mid.roots@ + kids.take(i + 1));
                    }
                    i = i + 1;
                }
                proof {
                    let new_t = *self;
                    assert(kids.take(n as int) =~= kids);
                    assert forall|u: Uid| #[trigger] new_t.contains(u)
                        implies new_t.parent_of(u) == old_t.parent_after_delete(uid, u) by {
                        assert(mid.nodes@.contains_key(u));
                        assert(old_t.contains(u));
                        if old_t.parent_of(u) == Some(uid) {
                            assert(old_t.is_place(Some(uid)));
                            assert(old_t.children_of(Some(uid)).contains(u));
                        }
                    }
                    assert forall|q: Option<Uid>| #[trigger] new_t.is_place(q)
                        implies new_t.children_of(q) == old_t.children_after_delete(uid, q) by {
                        assert(mid.is_place(q));
                        assert(q != Some(uid));
                    }
                    Self::lemma_delete_wf(&old_t, &new_t, uid);
                }
            },
        }
        proof {
            let new_t = *self;
            assert forall|v: Uid| #[trigger] old_t.deletable(v) implies new_t.deletable(v) by {
                if new_t.contains(v) {
                    assert(old_t.entities().contains(v));
                    assert(new_t.is_place(Some(v)));
                    if old_t.contains(uid) {
                        assert(new_t.children_of(Some(v)) == old_t.children_after_delete(uid, Some(v)));
                    }
                }
            }
        }
    }
}

} // verus!
