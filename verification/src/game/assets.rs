//! The asset files known by path, kept in step with a git tree: the
//! records that `git diff -z --name-status` prints are split, parsed and
//! applied here; running git is left to the caller.
use vstd::prelude::*;
use vstd::string::*;
use vstd::utf8::*;
use bimap::BiHashMap;

use crate::sys::{Uid, Uids};

verus! {

/// `bimap::BiHashMap`, whose contents are seen through `path_table`.
#[verifier::external_type_specification]
#[verifier::external_body]
#[verifier::reject_recursive_types(L)]
#[verifier::reject_recursive_types(R)]
#[verifier::reject_recursive_types(LS)]
#[verifier::reject_recursive_types(RS)]
pub struct ExBiHashMap<L, R, LS, RS>(bimap::BiHashMap<L, R, LS, RS>);

/// What a table of asset paths holds: the path of each id.
pub uninterp spec fn path_table(m: BiHashMap<Uid, String>) -> Map<Uid, Seq<char>>;

/// Calls `BiHashMap::new`, which makes an empty bimap.
#[verifier::external_body]
fn table_new() -> (table: BiHashMap<Uid, String>)
    ensures
        path_table(table).is_empty(),
{
    BiHashMap::new()
}

/// `paths` with `uid` holding `path`: `BiHashMap::insert` first drops the
/// pair of `uid` and the pair of `path`, whichever exist.
pub open spec fn pair_up(paths: Map<Uid, Seq<char>>, uid: Uid, path: Seq<char>) -> Map<Uid, Seq<char>> {
    paths.filter_keys(|k: Uid| k != uid && paths[k] != path).insert(uid, path)
}

/// Calls `BiHashMap::insert`, which removes the pair holding `uid` and the
/// pair holding `path`, then pairs the two. What it returns of the removed
/// pairs is dropped.
#[verifier::external_body]
fn table_insert(m: &mut BiHashMap<Uid, String>, uid: Uid, path: String)
    ensures
        path_table(*final(m)) == pair_up(path_table(*old(m)), uid, path@),
{
    m.insert(uid, path);
}

/// Calls `BiHashMap::remove_by_right`, which removes the pair holding `path`
/// and returns it, or returns `None` and changes nothing where no id holds it.
#[verifier::external_body]
fn table_remove_by_right(m: &mut BiHashMap<Uid, String>, path: &String) -> (r: Option<(Uid, String)>)
    ensures
        match r {
            Some((uid, p)) => {
                &&& path_table(*old(m)).contains_key(uid)
                &&& path_table(*old(m))[uid] == path@
                &&& p@ == path@
                &&& path_table(*final(m)) == path_table(*old(m)).remove(uid)
            },
            None => {
                &&& !path_table(*old(m)).contains_value(path@)
                &&& path_table(*final(m)) == path_table(*old(m))
            },
        },
{
    m.remove_by_right(path)
}

/// Calls `BiHashMap::get_by_right`, which returns the id holding `path`, if any.
#[verifier::external_body]
fn table_get_by_right<'a>(m: &'a BiHashMap<Uid, String>, path: &String) -> (r: Option<&'a Uid>)
    ensures
        match r {
            Some(uid) => path_table(*m).contains_key(*uid) && path_table(*m)[*uid] == path@,
            None => !path_table(*m).contains_value(path@),
        },
{
    m.get_by_right(path)
}

/// The pieces of `bytes` between NUL bytes, in order; the last piece is
/// what follows the last NUL, and may be empty.
pub open spec fn nul_pieces(bytes: Seq<u8>) -> Seq<Seq<u8>>
    decreases bytes.len(),
{
    if bytes.len() == 0 {
        seq![Seq::<u8>::empty()]
    } else {
        let pieces = nul_pieces(bytes.drop_last());
        if bytes.last() == 0u8 {
            pieces.push(Seq::<u8>::empty())
        } else {
            pieces.update(pieces.len() - 1, pieces.last().push(bytes.last()))
        }
    }
}

/// The fields of `bytes` as `BufRead::split` on NUL yields them: the pieces
/// between NUL bytes, where a NUL that ends the input ends the last field
/// rather than starting an empty one.
pub open spec fn nul_fields(bytes: Seq<u8>) -> Seq<Seq<u8>> {
    let pieces = nul_pieces(bytes);
    if pieces.last().len() == 0 {
        pieces.drop_last()
    } else {
        pieces
    }
}

/// There is always a last piece.
pub proof fn lemma_nul_pieces_len(bytes: Seq<u8>)
    ensures
        nul_pieces(bytes).len() >= 1,
    decreases bytes.len(),
{
    if bytes.len() > 0 {
        lemma_nul_pieces_len(bytes.drop_last());
    }
}

/// The bytes of each field.
pub open spec fn field_views(fields: Seq<Vec<u8>>) -> Seq<Seq<u8>> {
    fields.map_values(|f: Vec<u8>| f@)
}

/// Splits `bytes` into its NUL-separated fields.
pub fn split_fields(bytes: &[u8]) -> (fields: Vec<Vec<u8>>)
    ensures
        field_views(fields@) == nul_fields(bytes@),
{
    let mut done: Vec<Vec<u8>> = Vec::new();
    let mut cur: Vec<u8> = Vec::new();
    let mut i: usize = 0;
    assert(bytes@.take(0) =~= Seq::<u8>::empty());
    assert(field_views(done@).push(cur@) =~= nul_pieces(bytes@.take(0)));
    while i < bytes.len()
        invariant
            i <= bytes@.len(),
            field_views(done@).push(cur@) == nul_pieces(bytes@.take(i as int)),
        decreases bytes@.len() - i,
    {
        let b = bytes[i];
        let ghost before = nul_pieces(bytes@.take(i as int));
        assert(bytes@.take(i + 1).drop_last() =~= bytes@.take(i as int));
        proof { lemma_nul_pieces_len(bytes@.take(i as int)); }
        if b == 0 {
            let ghost old_done = field_views(done@);
            done.push(cur);
            cur = Vec::new();
            assert(field_views(done@) =~= old_done.push(before.last()));
            assert(field_views(done@).push(cur@) =~= nul_pieces(bytes@.take(i + 1)));
        } else {
            cur.push(b);
            assert(field_views(done@).push(cur@) =~= nul_pieces(bytes@.take(i + 1)));
        }
        i = i + 1;
    }
    assert(bytes@.take(bytes@.len() as int) =~= bytes@);
    if cur.len() > 0 {
        let ghost old_done = field_views(done@);
        done.push(cur);
        assert(field_views(done@) =~= old_done.push(cur@));
    } else {
        assert(field_views(done@) =~= field_views(done@).push(cur@).drop_last());
    }
    done
}

/// Calls `String::from_utf8`, which gives the text that `bytes` encode in
/// UTF-8, or an error where they are not valid UTF-8 (turned into `None`).
#[verifier::external_body]
fn text_from_utf8(bytes: Vec<u8>) -> (r: Option<String>)
    ensures
        match r {
            Some(text) => valid_utf8(bytes@) && text@ == decode_utf8(bytes@),
            None => !valid_utf8(bytes@),
        },
{
    match String::from_utf8(bytes) {
        Ok(text) => Some(text),
        Err(_) => None,
    }
}

/// A change to the asset paths, as one record of a diff reports it.
#[derive(Debug, Clone, PartialEq, Eq)]
pub enum PathChange {
    /// A file was added at the path.
    Added(String),
    /// The file at the path was deleted.
    Deleted(String),
    /// The file at `from` was moved to `to`.
    Renamed { from: String, to: String },
    /// The file at `from` was copied to `to`.
    Copied { from: String, to: String },
    /// Some other change to the file at the path, such as an edit.
    Other(String),
}

/// What a `PathChange` says, by the characters of its paths.
pub enum ChangeView {
    Added(Seq<char>),
    Deleted(Seq<char>),
    Renamed { from: Seq<char>, to: Seq<char> },
    Copied { from: Seq<char>, to: Seq<char> },
    Other(Seq<char>),
}

impl View for PathChange {
    type V = ChangeView;

    open spec fn view(&self) -> ChangeView {
        match self {
            PathChange::Added(p) => ChangeView::Added(p@),
            PathChange::Deleted(p) => ChangeView::Deleted(p@),
            PathChange::Renamed { from, to } => ChangeView::Renamed { from: from@, to: to@ },
            PathChange::Copied { from, to } => ChangeView::Copied { from: from@, to: to@ },
            PathChange::Other(p) => ChangeView::Other(p@),
        }
    }
}

/// The views of a sequence of changes.
pub open spec fn change_views(changes: Seq<PathChange>) -> Seq<ChangeView> {
    changes.map_values(|c: PathChange| c@)
}

/// Whether a record whose status starts with `status` names two paths:
/// renames (`R`) and copies (`C`) do.
pub open spec fn names_two_paths(status: u8) -> bool {
    status == 82u8 || status == 67u8
}

/// Whether `fields` is a list of records that `git diff -z --name-status`
/// could print: each a non-empty status then one path, or two paths for a
/// rename or a copy, every path valid UTF-8.
pub open spec fn diff_well_formed(fields: Seq<Seq<u8>>) -> bool
    decreases fields.len(),
{
    if fields.len() == 0 {
        true
    } else if fields.len() < 2 || fields[0].len() == 0 || !valid_utf8(fields[1]) {
        false
    } else if names_two_paths(fields[0][0]) {
        if fields.len() < 3 {
            false
        } else {
            valid_utf8(fields[2]) && diff_well_formed(fields.skip(3))
        }
    } else {
        diff_well_formed(fields.skip(2))
    }
}

/// The change that a record with status byte `status` and paths `first`
/// and `second` reports; `second` is read only for renames and copies.
pub open spec fn record_change(status: u8, first: Seq<u8>, second: Seq<u8>) -> ChangeView {
    let path = decode_utf8(first);
    if status == 65u8 {
        ChangeView::Added(path)
    } else if status == 68u8 {
        ChangeView::Deleted(path)
    } else if status == 82u8 {
        ChangeView::Renamed { from: path, to: decode_utf8(second) }
    } else if status == 67u8 {
        ChangeView::Copied { from: path, to: decode_utf8(second) }
    } else {
        ChangeView::Other(path)
    }
}

/// The changes that the records of a well-formed diff report, in order.
pub open spec fn diff_changes(fields: Seq<Seq<u8>>) -> Seq<ChangeView>
    decreases fields.len(),
{
    if fields.len() < 2 || fields[0].len() == 0 {
        seq![]
    } else if names_two_paths(fields[0][0]) {
        if fields.len() < 3 {
            seq![]
        } else {
            seq![record_change(fields[0][0], fields[1], fields[2])] + diff_changes(fields.skip(3))
        }
    } else {
        seq![record_change(fields[0][0], fields[1], Seq::<u8>::empty())] + diff_changes(fields.skip(2))
    }
}

/// The text of a field that holds valid UTF-8.
fn field_text(field: &Vec<u8>) -> (text: String)
    requires
        valid_utf8(field@),
    ensures
        text@ == decode_utf8(field@),
{
    let bytes = field.clone();
    assert(bytes@ =~= field@);
    match text_from_utf8(bytes) {
        Some(text) => text,
        None => {
            assert(false);
            String::new()
        },
    }
}

/// Whether `fields` is a well-formed diff.
pub fn is_well_formed_diff(fields: &Vec<Vec<u8>>) -> (r: bool)
    ensures
        r == diff_well_formed(field_views(fields@)),
{
    let ghost all = field_views(fields@);
    let mut i: usize = 0;
    assert(all.skip(0) =~= all);
    while i < fields.len()
        invariant
            i <= fields@.len(),
            all == field_views(fields@),
            diff_well_formed(all) == diff_well_formed(all.skip(i as int)),
        decreases fields@.len() - i,
    {
        let ghost rest = all.skip(i as int);
        if fields.len() - i < 2 || fields[i].len() == 0 || !is_valid_utf8(&fields[i + 1]) {
            return false;
        }
        if fields[i][0] == 82u8 || fields[i][0] == 67u8 {
            if fields.len() - i < 3 || !is_valid_utf8(&fields[i + 2]) {
                return false;
            }
            assert(rest.skip(3) =~= all.skip(i + 3));
            i = i + 3;
        } else {
            assert(rest.skip(2) =~= all.skip(i + 2));
            i = i + 2;
        }
    }
    assert(all.skip(i as int) =~= Seq::<Seq<u8>>::empty());
    true
}

/// Whether `bytes` is valid UTF-8.
fn is_valid_utf8(bytes: &Vec<u8>) -> (r: bool)
    ensures
        r == valid_utf8(bytes@),
{
    let copy = bytes.clone();
    assert(copy@ =~= bytes@);
    text_from_utf8(copy).is_some()
}

/// The changes that the records of a well-formed diff report, in order.
pub fn parse_diff(fields: &Vec<Vec<u8>>) -> (changes: Vec<PathChange>)
    requires
        diff_well_formed(field_views(fields@)),
    ensures
        change_views(changes@) == diff_changes(field_views(fields@)),
{
    let ghost all = field_views(fields@);
    let mut changes: Vec<PathChange> = Vec::new();
    let mut i: usize = 0;
    assert(all.skip(0) =~= all);
    while i < fields.len()
        invariant
            i <= fields@.len(),
            all == field_views(fields@),
            diff_well_formed(all.skip(i as int)),
            change_views(changes@) + diff_changes(all.skip(i as int)) == diff_changes(all),
        decreases fields@.len() - i,
    {
        let ghost rest = all.skip(i as int);
        let ghost before = change_views(changes@);
        let status = fields[i][0];
        let path = field_text(&fields[i + 1]);
        let change = if status == 82u8 || status == 67u8 {
            let second = field_text(&fields[i + 2]);
            if status == 82u8 {
                PathChange::Renamed { from: path, to: second }
            } else {
                PathChange::Copied { from: path, to: second }
            }
        } else if status == 65u8 {
            PathChange::Added(path)
        } else if status == 68u8 {
            PathChange::Deleted(path)
        } else {
            PathChange::Other(path)
        };
        changes.push(change);
        assert(change_views(changes@) =~= before.push(change@));
        if status == 82u8 || status == 67u8 {
            assert(change@ == record_change(rest[0][0], rest[1], rest[2]));
            assert(rest.skip(3) =~= all.skip(i + 3));
            i = i + 3;
        } else {
            assert(change@ == record_change(rest[0][0], rest[1], Seq::<u8>::empty()));
            assert(rest.skip(2) =~= all.skip(i + 2));
            i = i + 2;
        }
        assert(change_views(changes@) + diff_changes(all.skip(i as int)) =~= diff_changes(all));
    }
    assert(all.skip(i as int) =~= Seq::<Seq<u8>>::empty());
    assert(change_views(changes@) =~= change_views(changes@) + diff_changes(all.skip(i as int)));
    changes
}

/// The id that holds `path` in `paths`.
pub open spec fn holder(paths: Map<Uid, Seq<char>>, path: Seq<char>) -> Uid {
    choose|uid: Uid| paths.contains_key(uid) && paths[uid] == path
}

/// Whether applying `change` to `paths` draws a new id: an addition and a
/// copy always do; a rename does where no id holds the old path.
pub open spec fn draws_id(paths: Map<Uid, Seq<char>>, change: ChangeView) -> bool {
    match change {
        ChangeView::Added(_) => true,
        ChangeView::Copied { .. } => true,
        ChangeView::Renamed { from, .. } => !paths.contains_value(from),
        _ => false,
    }
}

/// `paths` once `change` is applied, where `fresh` is the id drawn if the
/// change draws one. A deleted path loses its id; a renamed path keeps its
/// id under the new path, or gets a new one where the old path was unknown;
/// an added path and the target of a copy get a new id.
pub open spec fn apply_change(paths: Map<Uid, Seq<char>>, change: ChangeView, fresh: Uid) -> Map<Uid, Seq<char>> {
    match change {
        ChangeView::Added(path) => pair_up(paths, fresh, path),
        ChangeView::Deleted(path) => if paths.contains_value(path) {
            paths.remove(holder(paths, path))
        } else {
            paths
        },
        ChangeView::Renamed { from, to } => if paths.contains_value(from) {
            let uid = holder(paths, from);
            pair_up(paths.remove(uid), uid, to)
        } else {
            pair_up(paths, fresh, to)
        },
        ChangeView::Copied { to, .. } => pair_up(paths, fresh, to),
        ChangeView::Other(_) => paths,
    }
}

/// The paths and the live ids once `changes` are applied in order, where
/// `ids[i]` is the id drawn for `changes[i]` if it draws one.
pub open spec fn apply_changes(
    paths: Map<Uid, Seq<char>>,
    live: Set<Uid>,
    changes: Seq<ChangeView>,
    ids: Seq<Uid>,
) -> (Map<Uid, Seq<char>>, Set<Uid>)
    decreases changes.len(),
{
    if changes.len() == 0 {
        (paths, live)
    } else {
        let (p, l) = apply_changes(paths, live, changes.drop_last(), ids.drop_last());
        let change = changes.last();
        let id = ids.last();
        (apply_change(p, change, id), if draws_id(p, change) { l.insert(id) } else { l })
    }
}

/// Whether each id in `ids` that is drawn was not live when it was drawn.
pub open spec fn draws_fresh(
    paths: Map<Uid, Seq<char>>,
    live: Set<Uid>,
    changes: Seq<ChangeView>,
    ids: Seq<Uid>,
) -> bool
    decreases changes.len(),
{
    if changes.len() == 0 {
        true
    } else {
        let (p, l) = apply_changes(paths, live, changes.drop_last(), ids.drop_last());
        &&& draws_fresh(paths, live, changes.drop_last(), ids.drop_last())
        &&& draws_id(p, changes.last()) ==> !l.contains(ids.last())
    }
}

/// Pairing an id with a path keeps paths one to one.
pub proof fn lemma_pair_up_injective(paths: Map<Uid, Seq<char>>, uid: Uid, path: Seq<char>)
    requires
        paths.is_injective(),
    ensures
        pair_up(paths, uid, path).is_injective(),
        pair_up(paths, uid, path).contains_key(uid),
        pair_up(paths, uid, path)[uid] == path,
{
    let m = pair_up(paths, uid, path);
    assert forall|a: Uid, b: Uid| m.dom().contains(a) && m.dom().contains(b) && a != b implies m[a] != m[b] by {
        if a != uid && b != uid {
            assert(paths.dom().contains(a) && paths.dom().contains(b));
        }
    }
}

/// In a one-to-one table the id holding a path is the only one.
pub proof fn lemma_holder_unique(paths: Map<Uid, Seq<char>>, path: Seq<char>, uid: Uid)
    requires
        paths.is_injective(),
        paths.contains_key(uid),
        paths[uid] == path,
    ensures
        holder(paths, path) == uid,
{
}

/// What one change does to a one-to-one path table: the table stays one to
/// one; every id whose path the change does not name keeps its path, and no
/// id comes in but the one drawn; an added path and the target of a copy are held by the id drawn; a
/// renamed path keeps the id of the old path, or gets the id drawn where the
/// old path was unknown; a deleted path is no longer held; any other change
/// leaves the table as it was.
pub proof fn lemma_change_effects(paths: Map<Uid, Seq<char>>, change: ChangeView, fresh: Uid)
    requires
        paths.is_injective(),
    ensures
        apply_change(paths, change, fresh).is_injective(),
        match change {
            ChangeView::Added(path) => apply_change(paths, change, fresh).contains_key(fresh)
                && apply_change(paths, change, fresh)[fresh] == path,
            ChangeView::Deleted(path) => !apply_change(paths, change, fresh).contains_value(path),
            ChangeView::Renamed { from, to } => if paths.contains_value(from) {
                apply_change(paths, change, fresh).contains_key(holder(paths, from))
                    && apply_change(paths, change, fresh)[holder(paths, from)] == to
            } else {
                apply_change(paths, change, fresh).contains_key(fresh)
                    && apply_change(paths, change, fresh)[fresh] == to
            },
            ChangeView::Copied { to, .. } => apply_change(paths, change, fresh).contains_key(fresh)
                && apply_change(paths, change, fresh)[fresh] == to,
            ChangeView::Other(_) => apply_change(paths, change, fresh) == paths,
        },
        match change {
            ChangeView::Added(path) => forall|u: Uid| #[trigger] paths.contains_key(u) && u != fresh && paths[u] != path
                ==> apply_change(paths, change, fresh).contains_key(u) && apply_change(paths, change, fresh)[u] == paths[u],
            ChangeView::Deleted(path) => forall|u: Uid| #[trigger] paths.contains_key(u) && paths[u] != path
                ==> apply_change(paths, change, fresh).contains_key(u) && apply_change(paths, change, fresh)[u] == paths[u],
            ChangeView::Renamed { from, to } => forall|u: Uid| #[trigger] paths.contains_key(u) && paths[u] != from
                && paths[u] != to && (!paths.contains_value(from) ==> u != fresh)
                ==> apply_change(paths, change, fresh).contains_key(u) && apply_change(paths, change, fresh)[u] == paths[u],
            ChangeView::Copied { to, .. } => forall|u: Uid| #[trigger] paths.contains_key(u) && u != fresh && paths[u] != to
                ==> apply_change(paths, change, fresh).contains_key(u) && apply_change(paths, change, fresh)[u] == paths[u],
            ChangeView::Other(_) => true,
        },
        forall|u: Uid| #[trigger] apply_change(paths, change, fresh).contains_key(u)
            ==> paths.contains_key(u) || u == fresh,
{
    match change {
        ChangeView::Added(path) => {
            lemma_pair_up_injective(paths, fresh, path);
        },
        ChangeView::Deleted(path) => {
            if paths.contains_value(path) {
                let uid = holder(paths, path);
                let r = paths.remove(uid);
                assert forall|a: Uid, b: Uid| r.dom().contains(a) && r.dom().contains(b) && a != b implies r[a] != r[b] by {
                    assert(paths.dom().contains(a) && paths.dom().contains(b));
                }
                if r.contains_value(path) {
                    let other = choose|k: Uid| r.dom().contains(k) && r[k] == path;
                    assert(paths.dom().contains(other) && paths[other] == path);
                    assert(paths[uid] == path);
                }
            }
        },
        ChangeView::Renamed { from, to } => {
            if paths.contains_value(from) {
                let uid = holder(paths, from);
                let r = paths.remove(uid);
                assert forall|a: Uid, b: Uid| r.dom().contains(a) && r.dom().contains(b) && a != b implies r[a] != r[b] by {
                    assert(paths.dom().contains(a) && paths.dom().contains(b));
                }
                lemma_pair_up_injective(r, uid, to);
            } else {
                lemma_pair_up_injective(paths, fresh, to);
            }
        },
        ChangeView::Copied { to, .. } => {
            lemma_pair_up_injective(paths, fresh, to);
        },
        ChangeView::Other(_) => {},
    }
}

/// The tree id of the empty tree, as `git hash-object -t tree /dev/null` gives it.
pub const GIT_NULL: &'static str = "4b825dc642cb6eb9a060e54bf8d69288fbee4904";

/// The length in bytes that `str::len` gives of a text.
pub open spec fn text_len(s: Seq<char>) -> usize {
    encode_utf8(s).len() as usize
}

/// A tree id handed to `check_tree` that does not look like one.
#[derive(Debug, Clone, Copy, PartialEq, Eq)]
pub struct InvalidTree;

/// The asset files known by path, each under an entity id, and the git
/// tree they were last read from.
#[derive(Debug)]
pub struct Assets {
    paths: BiHashMap<Uid, String>,
    hash: String,
}

impl Assets {
    /// The path of each asset id.
    pub closed spec fn paths(&self) -> Map<Uid, Seq<char>> {
        path_table(self.paths)
    }

    /// The tree the paths were last read from.
    pub closed spec fn tree(&self) -> Seq<char> {
        self.hash@
    }

    /// No two ids hold the same path.
    pub open spec fn wf(&self) -> bool {
        self.paths().is_injective()
    }

    /// Whether the tree `working` must be read: `Err` when it does not have
    /// the length of a tree id, `Ok(false)` when it is the tree already read.
    pub fn check_tree(&self, working: &String) -> (r: Result<bool, InvalidTree>)
        ensures
            text_len(working@) != text_len(GIT_NULL@) ==> r == Err::<bool, InvalidTree>(InvalidTree),
            text_len(working@) == text_len(GIT_NULL@) ==> r == Ok::<bool, InvalidTree>(working@ != self.tree()),
    {
        if working.as_str().len() != GIT_NULL.len() {
            return Err(InvalidTree);
        }
        let unchanged = *working == self.hash;
        Ok(!unchanged)
    }

    /// Applies one change; the result is the id drawn, if the change drew one.
    fn record(&mut self, uids: &mut Uids, change: &PathChange) -> (drawn: Ghost<Uid>)
        requires
            old(self).wf(),
        ensures
            final(self).wf(),
            final(self).tree() == old(self).tree(),
            draws_id(old(self).paths(), change@) ==> !old(uids).ids().contains(drawn@),
            final(self).paths() == apply_change(old(self).paths(), change@, drawn@),
            final(uids).ids() == if draws_id(old(self).paths(), change@) {
                old(uids).ids().insert(drawn@)
            } else {
                old(uids).ids()
            },
    {
        let ghost before = self.paths();
        match change {
            PathChange::Added(path) => {
                let uid = uids.add();
                table_insert(&mut self.paths, uid, path.clone());
                proof { lemma_pair_up_injective(before, uid, path@); }
                Ghost(uid)
            },
            PathChange::Deleted(path) => {
                match table_remove_by_right(&mut self.paths, path) {
                    Some((uid, _)) => {
                        proof { lemma_holder_unique(before, path@, uid); }
                    },
                    None => {},
                }
                Ghost(0)
            },
            PathChange::Renamed { from, to } => {
                let uid = match table_remove_by_right(&mut self.paths, from) {
                    Some((uid, _)) => {
                        proof { lemma_holder_unique(before, from@, uid); }
                        uid
                    },
                    None => uids.add(),
                };
                let ghost removed = self.paths();
                table_insert(&mut self.paths, uid, to.clone());
                proof { lemma_pair_up_injective(removed, uid, to@); }
                Ghost(uid)
            },
            PathChange::Copied { to, .. } => {
                let uid = uids.add();
                table_insert(&mut self.paths, uid, to.clone());
                proof { lemma_pair_up_injective(before, uid, to@); }
                Ghost(uid)
            },
            PathChange::Other(_) => Ghost(0),
        }
    }

    /// Applies `changes` in order, drawing a new id from `uids` for each
    /// added path, each copy and each rename of an unknown path.
    pub fn apply(&mut self, uids: &mut Uids, changes: &Vec<PathChange>)
        requires
            old(self).wf(),
        ensures
            final(self).wf(),
            final(self).tree() == old(self).tree(),
            exists|ids: Seq<Uid>| {
                &&& ids.len() == changes@.len()
                &&& draws_fresh(old(self).paths(), old(uids).ids(), change_views(changes@), ids)
                &&& (final(self).paths(), final(uids).ids())
                    == apply_changes(old(self).paths(), old(uids).ids(), change_views(changes@), ids)
            },
    {
        let ghost paths0 = self.paths();
        let ghost live0 = uids.ids();
        let ghost all = change_views(changes@);
        let ghost mut ids: Seq<Uid> = Seq::empty();
        let mut i: usize = 0;
        assert(all.take(0) =~= Seq::<ChangeView>::empty());
        while i < changes.len()
            invariant
                i <= changes@.len(),
                all == change_views(changes@),
                self.wf(),
                self.tree() == old(self).tree(),
                ids.len() == i,
                draws_fresh(paths0, live0, all.take(i as int), ids),
                (self.paths(), uids.ids()) == apply_changes(paths0, live0, all.take(i as int), ids),
            decreases changes@.len() - i,
        {
            let drawn = self.record(uids, &changes[i]);
            proof {
                let next = all.take(i + 1);
                assert(next.drop_last() =~= all.take(i as int));
                assert(next.last() == changes@[i as int]@);
                assert(ids.push(drawn@).drop_last() =~= ids);
                ids = ids.push(drawn@);
            }
            i = i + 1;
        }
        assert(all.take(i as int) =~= all);
    }

    /// Registers what `git diff -z --name-status` printed, as `diff`, for the
    /// change from the tree last read to `tree`, and remembers `tree` as read.
    pub fn update(&mut self, uids: &mut Uids, tree: String, diff: &[u8])
        requires
            old(self).wf(),
            diff_well_formed(nul_fields(diff@)),
        ensures
            final(self).wf(),
            final(self).tree() == tree@,
            exists|ids: Seq<Uid>| {
                &&& ids.len() == diff_changes(nul_fields(diff@)).len()
                &&& #[trigger] draws_fresh(old(self).paths(), old(uids).ids(), diff_changes(nul_fields(diff@)), ids)
                &&& (final(self).paths(), final(uids).ids())
                    == apply_changes(old(self).paths(), old(uids).ids(), diff_changes(nul_fields(diff@)), ids)
            },
    {
        let fields = split_fields(diff);
        let changes = parse_diff(&fields);
        self.apply(uids, &changes);
        self.hash = tree;
    }

    /// The id of the tree the paths were last read from.
    pub fn tree_id(&self) -> (r: String)
        ensures
            r@ == self.tree(),
    {
        self.hash.clone()
    }

    /// The id that holds `path`, if any.
    pub fn uid_of(&self, path: &String) -> (r: Option<Uid>)
        ensures
            match r {
                Some(uid) => self.paths().contains_key(uid) && self.paths()[uid] == path@,
                None => !self.paths().contains_value(path@),
            },
    {
        match table_get_by_right(&self.paths, path) {
            Some(uid) => Some(*uid),
            None => None,
        }
    }
}

impl Default for Assets {
    fn default() -> (a: Self)
        ensures
            a.wf(),
            a.paths() == Map::<Uid, Seq<char>>::empty(),
            a.tree() == GIT_NULL@,
    {
        Assets { paths: table_new(), hash: GIT_NULL.to_string() }
    }
}

} // verus!
