//! Structural comparison of two trees, and detection of copies by content.
use vstd::prelude::*;
use crate::path::{compare_paths, path_lt, lemma_path_lt_irreflexive};
use crate::store::{copy_bytes, entry_view, sorted_entries, FileMetadata, GuardedStore, StoreError, Tree, TreeId};

verus! {

#[derive(Clone, Copy, Debug, PartialEq, Eq, Structural)]
pub enum ChangeKind {
    Added,
    Deleted,
    Modified,
    Copied,
}

/// One path's change between two trees. A copy is recorded at its
/// destination, with the path it was copied from in `source`.
pub struct ChangeRecord {
    pub kind: ChangeKind,
    pub source: Option<Vec<u8>>,
    pub path: Vec<u8>,
    pub before: Option<FileMetadata>,
    pub after: Option<FileMetadata>,
}

/// A change record as a mathematical value.
pub struct Change {
    pub kind: ChangeKind,
    pub source: Option<Seq<u8>>,
    pub path: Seq<u8>,
    pub before: Option<FileMetadata>,
    pub after: Option<FileMetadata>,
}

pub open spec fn opt_bytes_view(o: Option<Vec<u8>>) -> Option<Seq<u8>> {
    match o {
        Some(v) => Some(v@),
        None => None,
    }
}

pub open spec fn change_view(r: ChangeRecord) -> Change {
    Change {
        kind: r.kind,
        source: opt_bytes_view(r.source),
        path: r.path@,
        before: r.before,
        after: r.after,
    }
}

pub open spec fn changes_view(rs: Seq<ChangeRecord>) -> Seq<Change> {
    rs.map_values(|r: ChangeRecord| change_view(r))
}

pub type TreeView = Seq<(Seq<u8>, FileMetadata)>;

pub open spec fn added(e: (Seq<u8>, FileMetadata)) -> Change {
    Change { kind: ChangeKind::Added, source: None, path: e.0, before: None, after: Some(e.1) }
}

pub open spec fn deleted(e: (Seq<u8>, FileMetadata)) -> Change {
    Change { kind: ChangeKind::Deleted, source: None, path: e.0, before: Some(e.1), after: None }
}

pub open spec fn modified(a: (Seq<u8>, FileMetadata), b: (Seq<u8>, FileMetadata)) -> Change {
    Change {
        kind: ChangeKind::Modified,
        source: None,
        path: a.0,
        before: Some(a.1),
        after: Some(b.1),
    }
}

/// The changes from `old` to `new`, found by walking both in path order:
/// a path only in `old` is deleted, one only in `new` is added, and one in
/// both is modified when its metadata differs and left out when it does not.
pub open spec fn merge_walk(old: TreeView, new: TreeView) -> Seq<Change>
    decreases old.len() + new.len(),
{
    if old.len() == 0 && new.len() == 0 {
        Seq::empty()
    } else if old.len() == 0 || (new.len() > 0 && path_lt(new[0].0, old[0].0)) {
        seq![added(new[0])] + merge_walk(old, new.drop_first())
    } else if new.len() == 0 || path_lt(old[0].0, new[0].0) {
        seq![deleted(old[0])] + merge_walk(old.drop_first(), new)
    } else if old[0].1 == new[0].1 {
        merge_walk(old.drop_first(), new.drop_first())
    } else {
        seq![modified(old[0], new[0])] + merge_walk(old.drop_first(), new.drop_first())
    }
}

/// The metadata at `path` in `tree`, if the path is there.
pub open spec fn lookup(tree: TreeView, path: Seq<u8>) -> Option<FileMetadata>
    decreases tree.len(),
{
    if tree.len() == 0 {
        None
    } else if tree[0].0 == path {
        Some(tree[0].1)
    } else {
        lookup(tree.drop_first(), path)
    }
}

/// The content a path of the old tree ends up with: its content in the new
/// tree when it is still there, its old content when it was deleted.
pub open spec fn final_meta(e: (Seq<u8>, FileMetadata), new: TreeView) -> FileMetadata {
    match lookup(new, e.0) {
        Some(m) => m,
        None => e.1,
    }
}

/// The first entry of `old`, from index `i` on, whose final content is `id`.
pub open spec fn first_source(old: TreeView, new: TreeView, id: usize, i: int) -> Option<int>
    decreases old.len() - i,
{
    if i < 0 || i >= old.len() {
        None
    } else if final_meta(old[i], new).id == id {
        Some(i)
    } else {
        first_source(old, new, id, i + 1)
    }
}

/// A change with copies folded in: an added path whose content some path of
/// the old tree ends up with becomes a copy of the first such path.
pub open spec fn fold_copy(c: Change, old: TreeView, new: TreeView) -> Change {
    if c.kind == ChangeKind::Added && c.after is Some {
        match first_source(old, new, c.after.unwrap().id, 0) {
            Some(s) => Change {
                kind: ChangeKind::Copied,
                source: Some(old[s].0),
                path: c.path,
                before: Some(old[s].1),
                after: c.after,
            },
            None => c,
        }
    } else {
        c
    }
}

/// The full comparison: the merge walk with copies folded in.
pub open spec fn tree_changes(old: TreeView, new: TreeView) -> Seq<Change> {
    merge_walk(old, new).map_values(|c: Change| fold_copy(c, old, new))
}

fn entry_change(kind: ChangeKind, path: &Vec<u8>, before: Option<FileMetadata>, after: Option<
    FileMetadata,
>) -> (r: ChangeRecord)
    ensures
        change_view(r) == (Change { kind, source: None, path: path@, before, after }),
{
    ChangeRecord { kind, source: None, path: copy_bytes(path.as_slice()), before, after }
}

proof fn lemma_skip_first<T>(s: Seq<T>, i: int)
    requires
        0 <= i < s.len(),
    ensures
        s.skip(i).drop_first() == s.skip(i + 1),
        s.skip(i)[0] == s[i],
{
    assert(s.skip(i).drop_first() =~= s.skip(i + 1));
}

/// Walks both trees in path order and records every path whose metadata
/// differs. No content is read.
pub fn compare_trees(old: &Tree, new: &Tree) -> (r: Vec<ChangeRecord>)
    ensures
        changes_view(r@) == merge_walk(old@, new@),
{
    let mut out: Vec<ChangeRecord> = Vec::new();
    let mut i: usize = 0;
    let mut j: usize = 0;
    proof {
        assert(old@.skip(0) =~= old@);
        assert(new@.skip(0) =~= new@);
        assert(changes_view(out@) =~= Seq::<Change>::empty());
    }
    while i < old.len() || j < new.len()
        invariant
            i <= old@.len(),
            j <= new@.len(),
            changes_view(out@) + merge_walk(old@.skip(i as int), new@.skip(j as int)) == merge_walk(
                old@,
                new@,
            ),
        decreases old@.len() + new@.len() - i - j,
    {
        let ghost o = old@.skip(i as int);
        let ghost n = new@.skip(j as int);
        let ghost prev = changes_view(out@);
        let step: u8 = if i == old.len() {
            0
        } else if j == new.len() {
            1
        } else {
            let a = old.entry(i);
            let b = new.entry(j);
            match compare_paths(a.path.as_slice(), b.path.as_slice()) {
                core::cmp::Ordering::Greater => 0,
                core::cmp::Ordering::Less => 1,
                core::cmp::Ordering::Equal => if a.meta == b.meta {
                    2
                } else {
                    3
                },
            }
        };
        if step == 0 {
            let b = new.entry(j);
            out.push(entry_change(ChangeKind::Added, &b.path, None, Some(b.meta)));
            proof {
                lemma_skip_first(new@, j as int);
                assert(changes_view(out@) =~= prev.push(added(new@[j as int])));
                assert(merge_walk(o, n) == seq![added(n[0])] + merge_walk(o, n.drop_first()));
                assert(changes_view(out@) + merge_walk(o, n.drop_first()) =~= prev + merge_walk(o, n));
            }
            j = j + 1;
        } else if step == 1 {
            let a = old.entry(i);
            out.push(entry_change(ChangeKind::Deleted, &a.path, Some(a.meta), None));
            proof {
                lemma_skip_first(old@, i as int);
                if j < new@.len() {
                    lemma_skip_first(new@, j as int);
                }
                assert(changes_view(out@) =~= prev.push(deleted(old@[i as int])));
                assert(merge_walk(o, n) == seq![deleted(o[0])] + merge_walk(o.drop_first(), n));
                assert(changes_view(out@) + merge_walk(o.drop_first(), n) =~= prev + merge_walk(o, n));
            }
            i = i + 1;
        } else {
            proof {
                lemma_skip_first(old@, i as int);
                lemma_skip_first(new@, j as int);
            }
            if step == 3 {
                let a = old.entry(i);
                let b = new.entry(j);
                out.push(entry_change(ChangeKind::Modified, &a.path, Some(a.meta), Some(b.meta)));
                proof {
                    assert(changes_view(out@) =~= prev.push(modified(o[0], n[0])));
                    assert(changes_view(out@) + merge_walk(o.drop_first(), n.drop_first()) =~= prev
                        + merge_walk(o, n));
                }
            }
            i = i + 1;
            j = j + 1;
        }
    }
    proof {
        assert(old@.skip(i as int).len() == 0);
        assert(new@.skip(j as int).len() == 0);
        assert(changes_view(out@) =~= merge_walk(old@, new@));
    }
    out
}

/// The metadata at `path` in `tree`, if the path is there.
pub fn find_entry(tree: &Tree, path: &[u8]) -> (r: Option<FileMetadata>)
    ensures
        r == lookup(tree@, path@),
{
    let mut i: usize = 0;
    proof {
        assert(tree@.skip(0) =~= tree@);
    }
    while i < tree.len()
        invariant
            i <= tree@.len(),
            lookup(tree@, path@) == lookup(tree@.skip(i as int), path@),
        decreases tree@.len() - i,
    {
        let e = tree.entry(i);
        proof {
            lemma_skip_first(tree@, i as int);
        }
        if matches!(compare_paths(e.path.as_slice(), path), core::cmp::Ordering::Equal) {
            return Some(e.meta);
        }
        i = i + 1;
    }
    None
}

/// Index of the first entry of `old` whose final content is `id`.
fn find_source(old: &Tree, new: &Tree, id: usize) -> (r: Option<usize>)
    ensures
        r matches Some(s) ==> first_source(old@, new@, id, 0) == Some(s as int) && s < old@.len(),
        r is None ==> first_source(old@, new@, id, 0) is None,
{
    let mut i: usize = 0;
    while i < old.len()
        invariant
            i <= old@.len(),
            first_source(old@, new@, id, 0) == first_source(old@, new@, id, i as int),
        decreases old@.len() - i,
    {
        let e = old.entry(i);
        let m = match find_entry(new, e.path.as_slice()) {
            Some(m) => m,
            None => e.meta,
        };
        if m.id == id {
            return Some(i);
        }
        i = i + 1;
    }
    None
}

/// Folds copies into a list of changes between `old` and `new`: every added
/// path whose content some path of `old` ends up with becomes a copy of the
/// first such path. Every other change is kept as it is.
pub fn detect_copies(changes: Vec<ChangeRecord>, old: &Tree, new: &Tree) -> (r: Vec<ChangeRecord>)
    ensures
        changes_view(r@) == changes_view(changes@).map_values(|c: Change| fold_copy(c, old@, new@)),
{
    let ghost input = changes_view(changes@);
    let mut out: Vec<ChangeRecord> = Vec::new();
    let mut rest = changes;
    let mut taken: Vec<ChangeRecord> = Vec::new();
    // Take the records in reverse so each can be moved out, then rebuild.
    while rest.len() > 0
        invariant
            changes_view(rest@) + changes_view(taken@).reverse() == input,
        decreases rest@.len(),
    {
        let ghost before_rest = rest@;
        let ghost before_taken = taken@;
        let c = rest.pop().unwrap();
        taken.push(c);
        proof {
            assert(changes_view(before_rest) =~= changes_view(rest@).push(change_view(c)));
            assert(changes_view(taken@) =~= changes_view(before_taken).push(change_view(c)));
            assert(changes_view(taken@).reverse() =~= seq![change_view(c)] + changes_view(
                before_taken,
            ).reverse());
            assert(changes_view(rest@) + changes_view(taken@).reverse() =~= changes_view(
                before_rest,
            ) + changes_view(before_taken).reverse());
        }
    }
    assert(changes_view(taken@).reverse() =~= input);
    while taken.len() > 0
        invariant
            changes_view(out@).len() + changes_view(taken@).len() == input.len(),
            changes_view(out@) == input.take(out@.len() as int).map_values(
                |c: Change| fold_copy(c, old@, new@),
            ),
            input.skip(out@.len() as int) == changes_view(taken@).reverse(),
        decreases taken@.len(),
    {
        let ghost before_taken = taken@;
        let ghost before_out = out@;
        let c = taken.pop().unwrap();
        proof {
            assert(changes_view(before_taken) =~= changes_view(taken@).push(change_view(c)));
            assert(changes_view(before_taken).reverse()[0] == change_view(c));
            assert(input[before_out.len() as int] == change_view(c));
            assert(changes_view(taken@).reverse() =~= changes_view(before_taken).reverse().drop_first());
        }
        let folded = if c.kind == ChangeKind::Added && c.after.is_some() {
            let meta = c.after.unwrap();
            match find_source(old, new, meta.id) {
                Some(s) => {
                    let src = old.entry(s);
                    ChangeRecord {
                        kind: ChangeKind::Copied,
                        source: Some(copy_bytes(src.path.as_slice())),
                        path: c.path,
                        before: Some(src.meta),
                        after: c.after,
                    }
                },
                None => c,
            }
        } else {
            c
        };
        out.push(folded);
        proof {
            assert(change_view(folded) == fold_copy(input[before_out.len() as int], old@, new@));
            assert(input.take(out@.len() as int) =~= input.take(before_out.len() as int).push(
                input[before_out.len() as int],
            ));
            assert(changes_view(out@) =~= changes_view(before_out).push(change_view(folded)));
            assert(changes_view(out@) =~= input.take(out@.len() as int).map_values(
                |c: Change| fold_copy(c, old@, new@),
            ));
            assert(input.skip(out@.len() as int) =~= input.skip(before_out.len() as int).drop_first());
        }
    }
    assert(input.take(out@.len() as int) =~= input);
    out
}

/// Compares two trees: the merge walk, then copy detection.
pub fn diff_trees(old: &Tree, new: &Tree) -> (r: Vec<ChangeRecord>)
    ensures
        changes_view(r@) == tree_changes(old@, new@),
{
    let raw = compare_trees(old, new);
    detect_copies(raw, old, new)
}

/// Compares two trees of a store. Only metadata is listed, so the policy
/// plays no part; an unknown tree is a storage fault.
pub fn diff_stored(gs: &GuardedStore, old: TreeId, new: TreeId) -> (r: Result<Vec<ChangeRecord>, StoreError>)
    ensures
        r is Ok <==> old < gs.inner.trees().len() && new < gs.inner.trees().len(),
        r matches Ok(cs) ==> changes_view(cs@) == tree_changes(
            gs.inner.trees()[old as int],
            gs.inner.trees()[new as int],
        ),
{
    let a = match gs.list(old) {
        Ok(t) => t,
        Err(e) => return Err(e),
    };
    let b = match gs.list(new) {
        Ok(t) => t,
        Err(e) => return Err(e),
    };
    Ok(diff_trees(a, b))
}

/// Comparing a tree with itself finds no change.
pub proof fn lemma_identical_trees_no_changes(t: TreeView)
    ensures
        merge_walk(t, t).len() == 0,
        tree_changes(t, t).len() == 0,
    decreases t.len(),
{
    if t.len() > 0 {
        lemma_path_lt_irreflexive(t[0].0);
        lemma_identical_trees_no_changes(t.drop_first());
    }
}

/// When an added path's content is what some path of the old tree ends up
/// with, the comparison records a copy from the smallest such path, and the
/// changes of every path that was not added (the source's own deletion or
/// modification among them) stay as the merge walk found them.
pub proof fn lemma_copy_from_smallest_source(old: TreeView, new: TreeView, k: int, p: int)
    requires
        sorted_entries(old),
        0 <= k < merge_walk(old, new).len(),
        merge_walk(old, new)[k].kind == ChangeKind::Added,
        merge_walk(old, new)[k].after is Some,
        0 <= p < old.len(),
        final_meta(old[p], new).id == merge_walk(old, new)[k].after.unwrap().id,
    ensures
        tree_changes(old, new)[k].kind == ChangeKind::Copied,
        tree_changes(old, new)[k].path == merge_walk(old, new)[k].path,
        tree_changes(old, new)[k].source matches Some(src) && (src == old[p].0 || path_lt(
            src,
            old[p].0,
        )),
        forall|m: int|
            0 <= m < merge_walk(old, new).len() && merge_walk(old, new)[m].kind != ChangeKind::Added
                ==> #[trigger] tree_changes(old, new)[m] == merge_walk(old, new)[m],
{
    let id = merge_walk(old, new)[k].after.unwrap().id;
    lemma_first_source_found(old, new, id, 0, p);
}

proof fn lemma_first_source_found(old: TreeView, new: TreeView, id: usize, i: int, p: int)
    requires
        sorted_entries(old),
        0 <= i <= p < old.len(),
        final_meta(old[p], new).id == id,
    ensures
        first_source(old, new, id, i) matches Some(s) && i <= s <= p && final_meta(old[s], new).id
            == id,
        first_source(old, new, id, i) matches Some(s) && (s == p || path_lt(old[s].0, old[p].0)),
    decreases p - i,
{
    if final_meta(old[i], new).id != id {
        lemma_first_source_found(old, new, id, i + 1, p);
    }
}

} // verus!
