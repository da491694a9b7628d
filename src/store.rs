//! A content-addressed store of blobs and trees, and a decorator that guards
//! content reads with a per-path policy while leaving metadata untouched.
use vstd::prelude::*;
use crate::path::{compare_paths, contains_bytes, occurs_in, path_lt, lemma_path_lt_transitive};

verus! {

/// Identity of a blob in a [`Store`]. Equal bytes always get the same id.
pub type ContentId = usize;

/// Identity of a tree in a [`Store`].
pub type TreeId = usize;

#[derive(Clone, Copy, Debug, PartialEq, Eq, Structural)]
pub enum FileKind {
    Regular,
    Executable,
    Symlink,
}

/// What is known of a file without reading its content.
#[derive(Clone, Copy, Debug, PartialEq, Eq, Structural)]
pub struct FileMetadata {
    pub kind: FileKind,
    pub id: ContentId,
}

/// One file of a tree.
pub struct Entry {
    pub path: Vec<u8>,
    pub meta: FileMetadata,
}

/// A failure of the underlying storage: an object that should be there is not.
#[derive(Clone, Copy, Debug, PartialEq, Eq, Structural)]
pub enum StoreError {
    MissingTree,
    MissingObject,
}

/// Why a content read failed.
#[derive(Debug)]
pub enum ContentError {
    /// The policy refused the read; the reason is for people to read.
    Denied(Vec<u8>),
    /// The storage itself failed.
    Storage(StoreError),
}

pub open spec fn entry_view(e: Entry) -> (Seq<u8>, FileMetadata) {
    (e.path@, e.meta)
}

/// Paths strictly increasing, so each occurs once.
pub open spec fn sorted_entries(s: Seq<(Seq<u8>, FileMetadata)>) -> bool {
    forall|i: int, j: int| 0 <= i < j < s.len() ==> path_lt(#[trigger] s[i].0, #[trigger] s[j].0)
}

/// A snapshot: files ordered by path.
pub struct Tree {
    entries: Vec<Entry>,
}

impl View for Tree {
    type V = Seq<(Seq<u8>, FileMetadata)>;

    closed spec fn view(&self) -> Self::V {
        self.entries@.map_values(|e: Entry| entry_view(e))
    }
}

pub fn copy_bytes(b: &[u8]) -> (r: Vec<u8>)
    ensures
        r@ == b@,
{
    vstd::slice::slice_to_vec(b)
}

impl Tree {
    pub open spec fn wf(&self) -> bool {
        sorted_entries(self@)
    }

    /// The tree with no files.
    pub fn empty() -> (r: Tree)
        ensures
            r.wf(),
            r@.len() == 0,
    {
        let r = Tree { entries: Vec::new() };
        assert(r@ =~= Seq::<(Seq<u8>, FileMetadata)>::empty());
        r
    }

    /// Builds a tree from entries given in strictly increasing path order;
    /// `None` when they are not.
    pub fn from_entries(entries: Vec<Entry>) -> (r: Option<Tree>)
        ensures
            r is Some <==> sorted_entries(entries@.map_values(|e: Entry| entry_view(e))),
            r matches Some(t) ==> t@ == entries@.map_values(|e: Entry| entry_view(e)) && t.wf(),
    {
        let ghost v = entries@.map_values(|e: Entry| entry_view(e));
        let mut i: usize = 1;
        if entries.len() == 0 {
            let t = Tree { entries };
            return Some(t);
        }
        while i < entries.len()
            invariant
                1 <= i <= entries@.len(),
                v == entries@.map_values(|e: Entry| entry_view(e)),
                forall|a: int, b: int| 0 <= a < b < i ==> path_lt(#[trigger] v[a].0, #[trigger] v[b].0),
            decreases entries@.len() - i,
        {
            if !matches!(
                compare_paths(entries[i - 1].path.as_slice(), entries[i].path.as_slice()),
                core::cmp::Ordering::Less
            ) {
                assert(!path_lt(v[i - 1].0, v[i as int].0));
                return None;
            }
            proof {
                assert forall|a: int, b: int| 0 <= a < b < i + 1 implies path_lt(
                    #[trigger] v[a].0,
                    #[trigger] v[b].0,
                ) by {
                    if b == i && a < i - 1 {
                        lemma_path_lt_transitive(v[a].0, v[i - 1].0, v[b].0);
                    }
                }
            }
            i = i + 1;
        }
        Some(Tree { entries })
    }

    pub fn len(&self) -> (r: usize)
        ensures
            r == self@.len(),
    {
        self.entries.len()
    }

    pub fn entry(&self, i: usize) -> (r: &Entry)
        requires
            i < self@.len(),
        ensures
            entry_view(*r) == self@[i as int],
    {
        &self.entries[i]
    }
}

/// The backing store: blobs addressed by content, and trees.
pub struct Store {
    blobs: Vec<Vec<u8>>,
    trees: Vec<Tree>,
}

impl Store {
    pub closed spec fn blobs(&self) -> Seq<Seq<u8>> {
        self.blobs@.map_values(|b: Vec<u8>| b@)
    }

    pub closed spec fn trees(&self) -> Seq<Seq<(Seq<u8>, FileMetadata)>> {
        self.trees@.map_values(|t: Tree| t@)
    }

    /// Distinct blobs have distinct contents, and every tree is ordered.
    pub open spec fn wf(&self) -> bool {
        &&& forall|i: int, j: int|
            0 <= i < j < self.blobs().len() ==> #[trigger] self.blobs()[i] != #[trigger] self.blobs()[j]
        &&& forall|i: int| 0 <= i < self.trees().len() ==> sorted_entries(#[trigger] self.trees()[i])
    }

    pub fn new() -> (r: Store)
        ensures
            r.wf(),
            r.blobs().len() == 0,
            r.trees().len() == 0,
    {
        let r = Store { blobs: Vec::new(), trees: Vec::new() };
        assert(r.blobs() =~= Seq::<Seq<u8>>::empty());
        assert(r.trees() =~= Seq::<Seq<(Seq<u8>, FileMetadata)>>::empty());
        r
    }

    /// Stores `bytes` and returns their id: the id they already had if an
    /// equal blob is stored, a new one otherwise.
    pub fn write_blob(&mut self, bytes: &[u8]) -> (r: ContentId)
        requires
            old(self).wf(),
        ensures
            final(self).wf(),
            final(self).trees() == old(self).trees(),
            r < final(self).blobs().len(),
            final(self).blobs()[r as int] == bytes@,
            old(self).blobs().contains(bytes@) ==> final(self).blobs() == old(self).blobs(),
            !old(self).blobs().contains(bytes@) ==> final(self).blobs() == old(self).blobs().push(
                bytes@,
            ),
    {
        let mut i: usize = 0;
        while i < self.blobs.len()
            invariant
                i <= self.blobs().len(),
                self.blobs().len() == self.blobs@.len(),
                self.wf(),
                self.blobs() == old(self).blobs(),
                self.trees() == old(self).trees(),
                forall|j: int| 0 <= j < i ==> self.blobs()[j] != bytes@,
            decreases self.blobs@.len() - i,
        {
            if matches!(compare_paths(self.blobs[i].as_slice(), bytes), core::cmp::Ordering::Equal) {
                return i;
            }
            i = i + 1;
        }
        let ghost before = self.blobs();
        self.blobs.push(copy_bytes(bytes));
        proof {
            assert(self.blobs() =~= before.push(bytes@));
            assert(self.trees() == old(self).trees());
        }
        i
    }

    /// Stores a tree and returns its id.
    pub fn write_tree(&mut self, tree: Tree) -> (r: TreeId)
        requires
            old(self).wf(),
            tree.wf(),
        ensures
            final(self).wf(),
            final(self).blobs() == old(self).blobs(),
            final(self).trees() == old(self).trees().push(tree@),
            r == old(self).trees().len(),
    {
        let r = self.trees.len();
        let ghost before = self.trees();
        self.trees.push(tree);
        assert(self.trees() =~= before.push(tree@));
        assert forall|i: int| 0 <= i < self.trees().len() implies sorted_entries(
            #[trigger] self.trees()[i],
        ) by {
            if i < before.len() {
                assert(self.trees()[i] == before[i]);
            } else {
                assert(self.trees()[i] == tree@);
            }
        }
        assert(self.blobs() =~= old(self).blobs());
        r
    }

    /// The files of a tree, in path order.
    pub fn list(&self, tree: TreeId) -> (r: Result<&Tree, StoreError>)
        ensures
            tree < self.trees().len() ==> (r matches Ok(t) && t@ == self.trees()[tree as int]),
            tree >= self.trees().len() ==> r == Err::<&Tree, StoreError>(StoreError::MissingTree),
    {
        if tree < self.trees.len() {
            Ok(&self.trees[tree])
        } else {
            Err(StoreError::MissingTree)
        }
    }

    /// The bytes of a blob.
    pub fn read(&self, id: ContentId) -> (r: Result<Vec<u8>, StoreError>)
        ensures
            id < self.blobs().len() ==> (r matches Ok(b) && b@ == self.blobs()[id as int]),
            id >= self.blobs().len() ==> r == Err::<Vec<u8>, StoreError>(StoreError::MissingObject),
    {
        if id < self.blobs.len() {
            Ok(copy_bytes(self.blobs[id].as_slice()))
        } else {
            Err(StoreError::MissingObject)
        }
    }
}

/// Which content reads are refused, decided from the path a blob is read
/// through; the same path always gets the same answer.
pub enum Policy {
    AllowAll,
    /// Refuse every path in which `pattern` occurs, giving `reason`.
    DenyMatching { pattern: Vec<u8>, reason: Vec<u8> },
}

impl Policy {
    /// The reason a read through `path` is refused, if it is.
    pub open spec fn denial(&self, path: Seq<u8>) -> Option<Seq<u8>> {
        match self {
            Policy::AllowAll => None,
            Policy::DenyMatching { pattern, reason } => if occurs_in(pattern@, path) {
                Some(reason@)
            } else {
                None
            },
        }
    }

    pub fn decide(&self, path: &[u8], id: ContentId) -> (r: Option<Vec<u8>>)
        ensures
            r is Some <==> self.denial(path@) is Some,
            r matches Some(reason) ==> self.denial(path@) == Some(reason@),
    {
        match self {
            Policy::AllowAll => None,
            Policy::DenyMatching { pattern, reason } => {
                if contains_bytes(path, pattern.as_slice()) {
                    Some(copy_bytes(reason.as_slice()))
                } else {
                    None
                }
            },
        }
    }
}

/// A store seen through a policy: metadata passes through, content reads
/// are checked first.
pub struct GuardedStore<'a> {
    pub inner: &'a Store,
    pub policy: Policy,
}

/// What a guarded content read gives for `path` and `id`, in terms of the
/// store and policy.
pub open spec fn guarded_read(store: &Store, policy: &Policy, path: Seq<u8>, id: ContentId) -> Result<
    Seq<u8>,
    Option<Seq<u8>>,
> {
    match policy.denial(path) {
        Some(reason) => Err(Some(reason)),
        None => if id < store.blobs().len() {
            Ok(store.blobs()[id as int])
        } else {
            Err(None)
        },
    }
}

pub open spec fn content_result_view(r: Result<Vec<u8>, ContentError>) -> Result<
    Seq<u8>,
    Option<Seq<u8>>,
> {
    match r {
        Ok(b) => Ok(b@),
        Err(ContentError::Denied(reason)) => Err(Some(reason@)),
        Err(ContentError::Storage(_)) => Err(None),
    }
}

impl<'a> GuardedStore<'a> {
    pub fn new(inner: &'a Store, policy: Policy) -> (r: GuardedStore<'a>)
        ensures
            r.inner == inner,
            r.policy == policy,
    {
        GuardedStore { inner, policy }
    }

    /// Lists a tree exactly as the wrapped store does, whatever the policy.
    pub fn list(&self, tree: TreeId) -> (r: Result<&Tree, StoreError>)
        ensures
            tree < self.inner.trees().len() ==> (r matches Ok(t) && t@ == self.inner.trees()[tree as int]),
            tree >= self.inner.trees().len() ==> r == Err::<&Tree, StoreError>(
                StoreError::MissingTree,
            ),
    {
        self.inner.list(tree)
    }

    /// Reads a blob through `path`: refused when the policy denies the path,
    /// without touching the store; otherwise the store's own answer.
    pub fn open_content(&self, path: &[u8], id: ContentId) -> (r: Result<Vec<u8>, ContentError>)
        ensures
            content_result_view(r) == guarded_read(self.inner, &self.policy, path@, id),
            r matches Err(ContentError::Storage(e)) ==> e == StoreError::MissingObject,
    {
        match self.policy.decide(path, id) {
            Some(reason) => Err(ContentError::Denied(reason)),
            None => match self.inner.read(id) {
                Ok(b) => Ok(b),
                Err(e) => Err(ContentError::Storage(e)),
            },
        }
    }

    /// The paths of a tree, in order. Reads no content, so no policy can
    /// make it fail.
    pub fn list_paths(&self, tree: TreeId) -> (r: Result<Vec<Vec<u8>>, StoreError>)
        ensures
            tree < self.inner.trees().len() <==> r is Ok,
            r matches Ok(ps) ==> ps@.len() == self.inner.trees()[tree as int].len() && forall|i: int|
                0 <= i < ps@.len() ==> #[trigger] ps@[i]@ == self.inner.trees()[tree as int][i].0,
    {
        let t = match self.list(tree) {
            Ok(t) => t,
            Err(e) => return Err(e),
        };
        let mut out: Vec<Vec<u8>> = Vec::new();
        let mut i: usize = 0;
        while i < t.len()
            invariant
                i <= t@.len(),
                t@ == self.inner.trees()[tree as int],
                out@.len() == i,
                forall|j: int| 0 <= j < i ==> #[trigger] out@[j]@ == t@[j].0,
            decreases t@.len() - i,
        {
            out.push(copy_bytes(t.entry(i).path.as_slice()));
            i = i + 1;
        }
        Ok(out)
    }
}

} // verus!
