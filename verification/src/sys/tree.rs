//! A tree of entities whose nodes are also linked into a thread: each new
//! node goes into the thread just before its parent.
use vstd::prelude::*;
use std::collections::HashMap;

use super::Uid;
use crate::game::tree::{without, lemma_without};

verus! {

broadcast use vstd::std_specs::hash::group_hash_axioms;

/// The links of one node: its own id, its parent, its children in order,
/// and its neighbours in the thread of the tree.
pub struct Link {
    pub uid: Uid,
    pub parent: Option<Uid>,
    pub children: Seq<Uid>,
    pub next: Option<Uid>,
    pub prev: Option<Uid>,
}

/// A node of a tree whose nodes are also linked into a thread: a node
/// inserted under a parent is linked in just before that parent; a new root
/// is linked to no other node.
#[derive(Debug, Clone)]
pub struct Node {
    uid: Uid,
    parent: Option<Uid>,
    children: Vec<Uid>,
    next: Option<Uid>,
    prev: Option<Uid>,
}

impl Node {
    /// The id of the node.
    pub fn uid(&self) -> (r: Uid)
        ensures
            r == self@.uid,
    {
        self.uid
    }

    /// The parent, if the node is not a root.
    pub fn parent(&self) -> (r: Option<Uid>)
        ensures
            r == self@.parent,
    {
        self.parent
    }

    /// The children, in the order they were inserted.
    pub fn children(&self) -> (r: &[Uid])
        ensures
            r@ == self@.children,
    {
        self.children.as_slice()
    }

    /// The node after this one in the thread.
    pub fn next(&self) -> (r: Option<Uid>)
        ensures
            r == self@.next,
    {
        self.next
    }

    /// The node before this one in the thread.
    pub fn prev(&self) -> (r: Option<Uid>)
        ensures
            r == self@.prev,
    {
        self.prev
    }
}

impl View for Node {
    type V = Link;

    closed spec fn view(&self) -> Link {
        Link { uid: self.uid, parent: self.parent, children: self.children@, next: self.next, prev: self.prev }
    }
}

/// Whether the links in `m` agree with each other: each parent lists its
/// child and each child names its parent, the thread runs the same way
/// forwards and backwards, and every link leads to a node of `m`.
pub open spec fn links_wf(m: Map<Uid, Link>) -> bool {
    forall|u: Uid| #[trigger] m.contains_key(u) ==> {
        let l = m[u];
        &&& (l.parent matches Some(p) ==> p != u && m.contains_key(p) && m[p].children.contains(u))
        &&& l.children.no_duplicates()
        &&& (forall|c: Uid| #[trigger] l.children.contains(c) ==> m.contains_key(c) && m[c].parent == Some(u))
        &&& (l.next matches Some(b) ==> m.contains_key(b) && m[b].prev == Some(u))
        &&& (l.prev matches Some(a) ==> m.contains_key(a) && m[a].next == Some(u))
    }
}

/// The parent that `insert` gives a node asked to go under `parent`: that
/// node where it is in the tree, else none.
pub open spec fn known_parent(m: Map<Uid, Link>, parent: Option<Uid>) -> Option<Uid> {
    match parent {
        Some(p) => if m.contains_key(p) { Some(p) } else { None },
        None => None,
    }
}

/// The links once `uid` is inserted under `parent`: the node goes into the
/// thread just before its parent, as the parent's last child.
pub open spec fn after_insert(m: Map<Uid, Link>, uid: Uid, parent: Option<Uid>) -> Map<Uid, Link> {
    let prev = match parent {
        Some(p) => m[p].prev,
        None => None,
    };
    let m1 = m.insert(uid, Link { uid, parent, children: Seq::empty(), next: parent, prev });
    let m2 = match parent {
        Some(p) => m1.insert(p, Link { children: m1[p].children.push(uid), prev: Some(uid), ..m1[p] }),
        None => m1,
    };
    match prev {
        Some(q) => if m2.contains_key(q) {
            m2.insert(q, Link { next: Some(uid), ..m2[q] })
        } else {
            m2
        },
        None => m2,
    }
}

/// The links once `uid` is deleted: its parent forgets it, its children
/// become roots, and its neighbours in the thread are joined.
pub open spec fn after_delete(m: Map<Uid, Link>, uid: Uid) -> Map<Uid, Link> {
    if !m.contains_key(uid) {
        m
    } else {
        let n = m[uid];
        let m1 = m.remove(uid);
        let m2 = match n.parent {
            Some(p) => if m1.contains_key(p) {
                m1.insert(p, Link { children: without(m1[p].children, uid), ..m1[p] })
            } else {
                m1
            },
            None => m1,
        };
        let m3 = orphaned(m2, n.children);
        let m4 = match n.next {
            Some(b) => if m3.contains_key(b) { m3.insert(b, Link { prev: n.prev, ..m3[b] }) } else { m3 },
            None => m3,
        };
        match n.prev {
            Some(a) => if m4.contains_key(a) { m4.insert(a, Link { next: n.next, ..m4[a] }) } else { m4 },
            None => m4,
        }
    }
}

/// What inserting a new node does to the links: the node is added with no
/// children, under its parent, and threaded just before it; the parent's
/// children are its old children followed by the node; every other node
/// keeps its parent and its children.
pub proof fn lemma_insert_links(m: Map<Uid, Link>, uid: Uid, parent: Option<Uid>)
    requires
        links_wf(m),
        !m.contains_key(uid),
        parent matches Some(p) ==> m.contains_key(p),
    ensures
        after_insert(m, uid, parent).dom() == m.dom().insert(uid),
        after_insert(m, uid, parent)[uid].uid == uid,
        after_insert(m, uid, parent)[uid].parent == parent,
        after_insert(m, uid, parent)[uid].children == Seq::<Uid>::empty(),
        after_insert(m, uid, parent)[uid].next == parent,
        parent is None ==> after_insert(m, uid, parent)[uid].prev is None,
        parent matches Some(p) ==> {
            &&& after_insert(m, uid, parent)[p].children == m[p].children.push(uid)
            &&& after_insert(m, uid, parent)[p].parent == m[p].parent
            &&& after_insert(m, uid, parent)[p].prev == Some(uid)
            &&& after_insert(m, uid, parent)[uid].prev == m[p].prev
        },
        forall|u: Uid| #[trigger] m.contains_key(u) && Some(u) != parent ==> {
            &&& after_insert(m, uid, parent)[u].children == m[u].children
            &&& after_insert(m, uid, parent)[u].parent == m[u].parent
        },
{
    let r = after_insert(m, uid, parent);
    if let Some(p) = parent {
        assert(p != uid);
        if let Some(q) = m[p].prev {
            assert(m.contains_key(q));
            assert(q != uid);
        }
    }
    assert(r.dom() =~= m.dom().insert(uid));
}

/// Inserting a node that is not in the tree, under a parent that is or
/// under none, keeps the links consistent.
pub proof fn lemma_insert_wf(m: Map<Uid, Link>, uid: Uid, parent: Option<Uid>)
    requires
        links_wf(m),
        !m.contains_key(uid),
        parent matches Some(p) ==> m.contains_key(p),
    ensures
        links_wf(after_insert(m, uid, parent)),
{
    let r = after_insert(m, uid, parent);
    match parent {
        None => {
            assert forall|u: Uid| #[trigger] r.contains_key(u) implies {
                let l = r[u];
                &&& (l.parent matches Some(p) ==> p != u && r.contains_key(p) && r[p].children.contains(u))
                &&& l.children.no_duplicates()
                &&& (forall|c: Uid| #[trigger] l.children.contains(c) ==> r.contains_key(c) && r[c].parent == Some(u))
                &&& (l.next matches Some(b) ==> r.contains_key(b) && r[b].prev == Some(u))
                &&& (l.prev matches Some(a) ==> r.contains_key(a) && r[a].next == Some(u))
            } by {
                if u != uid {
                    assert(m.contains_key(u));
                    let l = m[u];
                    assert forall|c: Uid| #[trigger] l.children.contains(c) implies r.contains_key(c) && r[c].parent == Some(u) by {
                        assert(m.contains_key(c));
                    }
                }
            }
        },
        Some(p) => {
            let q = m[p].prev;
            assert(m.contains_key(p));
            assert(q matches Some(x) ==> m.contains_key(x) && x != uid);
            assert forall|u: Uid| #[trigger] r.contains_key(u) implies {
                let l = r[u];
                &&& (l.parent matches Some(g) ==> g != u && r.contains_key(g) && r[g].children.contains(u))
                &&& l.children.no_duplicates()
                &&& (forall|c: Uid| #[trigger] l.children.contains(c) ==> r.contains_key(c) && r[c].parent == Some(u))
                &&& (l.next matches Some(b) ==> r.contains_key(b) && r[b].prev == Some(u))
                &&& (l.prev matches Some(a) ==> r.contains_key(a) && r[a].next == Some(u))
            } by {
                if u == uid {
                    assert(r[uid].children =~= Seq::<Uid>::empty());
                    let kids = m[p].children.push(uid);
                    assert(r[p].children == kids);
                    assert(kids[kids.len() - 1] == uid);
                } else {
                    assert(m.contains_key(u));
                    let l = m[u];
                    if let Some(g) = l.parent {
                        assert(m.contains_key(g));
                        assert(m[g].children.contains(u));
                        if g == p {
                            assert(m[p].children.push(uid).contains(u)) by {
                                let k = m[p].children.index_of(u);
                                assert(m[p].children.push(uid)[k] == u);
                            }
                        } else {
                            assert(r[g].children == m[g].children);
                        }
                    }
                    if u == p {
                        assert(!m[p].children.contains(uid));
                        assert forall|c: Uid| #[trigger] r[p].children.contains(c) implies r.contains_key(c) && r[c].parent == Some(p) by {
                            if c != uid {
                                let k = r[p].children.index_of(c);
                                assert(m[p].children[k] == c);
                                assert(m[p].children.contains(c));
                                assert(m.contains_key(c));
                            }
                        }
                    } else {
                        assert forall|c: Uid| #[trigger] r[u].children.contains(c) implies r.contains_key(c) && r[c].parent == Some(u) by {
                            assert(m.contains_key(c));
                        }
                    }
                    if let Some(b) = l.next {
                        assert(m.contains_key(b));
                    }
                    if let Some(a) = l.prev {
                        assert(m.contains_key(a));
                    }
                }
            }
        },
    }
}

/// The links of `m2` with every node of `kids` made a root.
pub open spec fn orphaned(m2: Map<Uid, Link>, kids: Seq<Uid>) -> Map<Uid, Link> {
    Map::new(
        |k: Uid| m2.contains_key(k),
        |k: Uid| if kids.contains(k) { Link { parent: None, ..m2[k] } } else { m2[k] },
    )
}

/// Deleting a node just inserted gives back the links from before the
/// insert.
pub proof fn lemma_delete_undoes_insert(m: Map<Uid, Link>, uid: Uid, parent: Option<Uid>)
    requires
        links_wf(m),
        !m.contains_key(uid),
        parent matches Some(p) ==> m.contains_key(p),
    ensures
        after_delete(after_insert(m, uid, parent), uid) == m,
{
    let r = after_delete(after_insert(m, uid, parent), uid);
    if let Some(p) = parent {
        let kids = m[p].children;
        assert(!kids.contains(uid));
        lemma_without(kids.push(uid), uid);
        assert(kids.push(uid)[kids.len() as int] == uid);
        assert(without(kids.push(uid), uid) =~= kids) by {
            let s = kids.push(uid);
            let j = s.index_of(uid);
            assert(s.contains(uid));
            if j < kids.len() {
                assert(kids[j] == uid);
            }
            assert(j == kids.len());
        }
        if let Some(q) = m[p].prev {
            assert(m.contains_key(q) && m[q].next == Some(p));
        }
    }
    assert(r =~= m);
}

/// Deleting a node keeps the links consistent.
pub proof fn lemma_delete_wf(m: Map<Uid, Link>, uid: Uid)
    requires
        links_wf(m),
    ensures
        links_wf(after_delete(m, uid)),
{
    if m.contains_key(uid) {
        let r = after_delete(m, uid);
        let n = m[uid];
        assert forall|u: Uid| #[trigger] r.contains_key(u) implies {
            let l = r[u];
            &&& (l.parent matches Some(g) ==> g != u && r.contains_key(g) && r[g].children.contains(u))
            &&& l.children.no_duplicates()
            &&& (forall|c: Uid| #[trigger] l.children.contains(c) ==> r.contains_key(c) && r[c].parent == Some(u))
            &&& (l.next matches Some(b) ==> r.contains_key(b) && r[b].prev == Some(u))
            &&& (l.prev matches Some(a) ==> r.contains_key(a) && r[a].next == Some(u))
        } by {
            assert(m.contains_key(u) && u != uid);
            let l = m[u];
            if let Some(g) = r[u].parent {
                assert(m[u].parent == Some(g));
                assert(m.contains_key(g));
                if g == uid {
                    assert(n.children.contains(u));
                }
                lemma_without(m[g].children, uid);
            }
            lemma_without(l.children, uid);
            if n.parent != Some(u) {
                assert(!l.children.contains(uid));
                assert(r[u].children == l.children);
            }
            assert forall|c: Uid| #[trigger] r[u].children.contains(c) implies r.contains_key(c) && r[c].parent == Some(u) by {
                assert(l.children.contains(c));
                assert(m.contains_key(c));
                if n.children.contains(c) {
                    assert(m[c].parent == Some(uid));
                }
            }
            if let Some(b) = r[u].next {
                if n.prev == Some(u) {
                    assert(n.next == Some(b));
                    assert(m.contains_key(b));
                } else {
                    assert(m[u].next == Some(b));
                    assert(m.contains_key(b));
                }
            }
            if let Some(a) = r[u].prev {
                if n.next == Some(u) {
                    assert(n.prev == Some(a));
                    assert(m.contains_key(a));
                } else {
                    assert(m[u].prev == Some(a));
                    assert(m.contains_key(a));
                }
            }
        }
    }
}

/// Takes the first `x` out of `v`, if it holds one.
fn remove_first(v: &mut Vec<Uid>, x: Uid)
    requires
        old(v)@.no_duplicates(),
    ensures
        final(v)@ == without(old(v)@, x),
{
    let mut i: usize = 0;
    while i < v.len()
        invariant
            i <= v@.len(),
            v@ == old(v)@,
            v@.no_duplicates(),
            forall|j: int| 0 <= j < i ==> v@[j] != x,
        decreases v@.len() - i,
    {
        if v[i] == x {
            proof {
                let k = v@.index_of(x);
                assert(v@.contains(x));
                assert(v@[k] == x && v@[i as int] == x);
                assert(k == i);
            }
            v.remove(i);
            return;
        }
        i = i + 1;
    }
    assert(!v@.contains(x));
}

/// A tree of entities, with each node linked into a thread just before its
/// parent when it is inserted.
#[derive(Debug)]
pub struct Tree {
    map: HashMap<Uid, Node>,
}

impl Tree {
    /// The links of each node.
    pub closed spec fn links(&self) -> Map<Uid, Link> {
        self.map@.map_values(|n: Node| n@)
    }

    /// The tree is consistent: see `links_wf`; each node also knows its id.
    pub closed spec fn wf(&self) -> bool {
        &&& links_wf(self.links())
        &&& forall|u: Uid| #[trigger] self.map@.contains_key(u) ==> self.map@[u].uid == u
    }

    /// An empty tree.
    pub fn new() -> (t: Self)
        ensures
            t.wf(),
            t.links() == Map::<Uid, Link>::empty(),
    {
        let t = Tree { map: HashMap::new() };
        assert(t.links() =~= Map::<Uid, Link>::empty());
        t
    }

    /// The node of `uid`, if it is in the tree.
    pub fn get(&self, uid: &Uid) -> (r: Option<&Node>)
        requires
            self.wf(),
        ensures
            match r {
                Some(node) => self.links().contains_key(*uid) && node@ == self.links()[*uid] && node@.uid == *uid,
                None => !self.links().contains_key(*uid),
            },
    {
        self.map.get(uid)
    }

    /// Whether `uid` is in the tree.
    pub closed spec fn contains(&self, uid: Uid) -> bool {
        self.map@.contains_key(uid)
    }

    /// Inserts `uid` as the last child of `parent`, or as a root where
    /// `parent` is none or not in the tree. Fails, changing nothing, where
    /// `uid` is in the tree already.
    pub fn insert(&mut self, uid: Uid, parent: Option<&Uid>) -> (r: Result<(), ()>)
        requires
            old(self).wf(),
        ensures
            final(self).wf(),
            r is Err <==> old(self).contains(uid),
            r is Err ==> final(self).links() == old(self).links(),
            r is Ok ==> final(self).links() == after_insert(
                old(self).links(),
                uid,
                known_parent(old(self).links(), match parent { Some(p) => Some(*p), None => None }),
            ),
    {
        if self.map.contains_key(&uid) {
            return Err(());
        }
        let ghost m = self.links();
        let parent: Option<Uid> = match parent {
            Some(p) => if self.map.contains_key(p) { Some(*p) } else { None },
            None => None,
        };
        let prev: Option<Uid> = match parent {
            Some(p) => match self.map.get(&p) {
                Some(node) => node.prev,
                None => None,
            },
            None => None,
        };
        self.map.insert(uid, Node { uid, parent, children: Vec::new(), next: parent, prev });
        let ghost m1 = m.insert(uid, Link { uid, parent, children: Seq::empty(), next: parent, prev });
        assert(self.links() =~= m1);
        match parent {
            Some(p) => {
                match self.map.remove(&p) {
                    Some(node) => {
                        let mut node = node;
                        node.children.push(uid);
                        node.prev = Some(uid);
                        self.map.insert(p, node);
                    },
                    None => {},
                }
            },
            None => {},
        }
        let ghost m2 = match parent {
            Some(p) => m1.insert(p, Link { children: m1[p].children.push(uid), prev: Some(uid), ..m1[p] }),
            None => m1,
        };
        assert(self.links() =~= m2);
        match prev {
            Some(q) => {
                match self.map.remove(&q) {
                    Some(node) => {
                        let mut node = node;
                        node.next = Some(uid);
                        self.map.insert(q, node);
                    },
                    None => {},
                }
            },
            None => {},
        }
        assert(self.links() =~= after_insert(m, uid, parent));
        proof { lemma_insert_wf(m, uid, parent); }
        Ok(())
    }

    /// Deletes `uid`: its parent forgets it, its children become roots, and
    /// its neighbours in the thread are joined. Nothing changes where `uid`
    /// is not in the tree.
    pub fn delete(&mut self, uid: &Uid)
        requires
            old(self).wf(),
        ensures
            final(self).wf(),
            final(self).links() == after_delete(old(self).links(), *uid),
    {
        let ghost m = self.links();
        let node = match self.map.remove(uid) {
            Some(node) => node,
            None => {
                assert(self.links() =~= m);
                proof { lemma_delete_wf(m, *uid); }
                return;
            },
        };
        let ghost n = m[*uid];
        let ghost m1 = m.remove(*uid);
        assert(self.links() =~= m1);
        match node.parent {
            Some(p) => {
                match self.map.remove(&p) {
                    Some(parent) => {
                        let mut parent = parent;
                        remove_first(&mut parent.children, *uid);
                        self.map.insert(p, parent);
                    },
                    None => {},
                }
            },
            None => {},
        }
        let ghost m2 = match n.parent {
            Some(p) => if m1.contains_key(p) {
                m1.insert(p, Link { children: without(m1[p].children, *uid), ..m1[p] })
            } else {
                m1
            },
            None => m1,
        };
        assert(self.links() =~= m2);
        let mut i: usize = 0;
        assert(orphaned(m2, n.children.take(0)) =~= m2);
        while i < node.children.len()
            invariant
                i <= node.children@.len(),
                n.children == node.children@,
                self.links() == orphaned(m2, n.children.take(i as int)),
                forall|u: Uid| #[trigger] self.map@.contains_key(u) ==> self.map@[u].uid == u,
            decreases node.children@.len() - i,
        {
            let c = node.children[i];
            let ghost cur = self.links();
            match self.map.remove(&c) {
                Some(child) => {
                    let mut child = child;
                    child.parent = None;
                    self.map.insert(c, child);
                },
                None => {},
            }
            proof {
                let before = n.children.take(i as int);
                let after = n.children.take(i + 1);
                assert(after =~= before.push(c));
                assert forall|k: Uid| after.contains(k) == (before.contains(k) || k == c) by {
                    if after.contains(k) && k != c {
                        let j = choose|j: int| 0 <= j < after.len() && after[j] == k;
                        assert(before[j] == k);
                    }
                    if before.contains(k) {
                        let j = choose|j: int| 0 <= j < before.len() && before[j] == k;
                        assert(after[j] == k);
                    }
                    if k == c {
                        assert(after[i as int] == k);
                    }
                }
            }
            assert(self.links() =~= if cur.contains_key(c) {
                cur.insert(c, Link { parent: None, ..cur[c] })
            } else {
                cur
            });
            assert(self.links() =~= orphaned(m2, n.children.take(i + 1)));
            i = i + 1;
        }
        assert(n.children.take(i as int) =~= n.children);
        let ghost m3 = orphaned(m2, n.children);
        match node.next {
            Some(b) => {
                match self.map.remove(&b) {
                    Some(next) => {
                        let mut next = next;
                        next.prev = node.prev;
                        self.map.insert(b, next);
                    },
                    None => {},
                }
            },
            None => {},
        }
        let ghost m4 = match n.next {
            Some(b) => if m3.contains_key(b) { m3.insert(b, Link { prev: n.prev, ..m3[b] }) } else { m3 },
            None => m3,
        };
        assert(self.links() =~= m4);
        match node.prev {
            Some(a) => {
                match self.map.remove(&a) {
                    Some(prev) => {
                        let mut prev = prev;
                        prev.next = node.next;
                        self.map.insert(a, prev);
                    },
                    None => {},
                }
            },
            None => {},
        }
        assert(self.links() =~= after_delete(m, *uid));
        proof { lemma_delete_wf(m, *uid); }
    }
}

impl Default for Tree {
    fn default() -> (t: Self)
        ensures
            t.wf(),
            t.links() == Map::<Uid, Link>::empty(),
    {
        Tree::new()
    }
}

} // verus!
