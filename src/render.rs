//! Renderers of a change list. Those that only name paths never read
//! content; those that show content read it through the guarded store and
//! each decide on their own what a refused read means.
use vstd::prelude::*;
use crate::diff::{change_view, changes_view, Change, ChangeKind, ChangeRecord};
use crate::diff::TreeView;
use crate::store::{
    content_result_view, Tree, guarded_read, ContentError, FileKind, FileMetadata, GuardedStore,
    Policy, Store, StoreError,
};
use crate::text::{MINUS, NEWLINE, PLUS, SPACE, count_lines, decimal, line_count, marked_block, push_all, push_decimal, push_marked, push_repeat, repeat};
use vstd::string::StringSliceAdditionalSpecFns;

verus! {

/// `-`: no file on that side.
pub const ABSENT: u8 = 45;
/// `F`: a regular file.
pub const REGULAR: u8 = 70;
/// `X`: an executable file.
pub const EXECUTABLE: u8 = 88;
/// `L`: a symbolic link.
pub const SYMLINK: u8 = 76;

/// Status letters of the `summary` format: `M`, `A`, `D` and `C`.
pub const MODIFIED: u8 = 77;
pub const ADDED: u8 = 65;
pub const DELETED: u8 = 68;
pub const COPIED: u8 = 67;

/// Letter of a side's file kind; `-` where the path is absent.
pub open spec fn kind_code(m: Option<FileMetadata>) -> u8 {
    match m {
        None => ABSENT,
        Some(m) => match m.kind {
            FileKind::Regular => REGULAR,
            FileKind::Executable => EXECUTABLE,
            FileKind::Symlink => SYMLINK,
        },
    }
}

/// A change's path as printed: `{source => destination}` for a copy.
pub open spec fn display_path(c: Change) -> Seq<u8> {
    match c.source {
        Some(s) => text("{") + s + text(" => ") + c.path + text("}"),
        None => c.path,
    }
}

/// Concatenation of `f` over the changes, in order.
pub open spec fn concat_lines(cs: Seq<Change>, f: spec_fn(Change) -> Seq<u8>) -> Seq<u8>
    decreases cs.len(),
{
    if cs.len() == 0 {
        Seq::empty()
    } else {
        concat_lines(cs.drop_last(), f) + f(cs.last())
    }
}

proof fn lemma_concat_step(cs: Seq<Change>, f: spec_fn(Change) -> Seq<u8>, i: int)
    requires
        0 <= i < cs.len(),
    ensures
        concat_lines(cs.take(i + 1), f) == concat_lines(cs.take(i), f) + f(cs[i]),
{
    assert(cs.take(i + 1).drop_last() =~= cs.take(i));
}

/// A line of the `types` format: the kinds before and after, then the path.
pub open spec fn types_line(c: Change) -> Seq<u8> {
    seq![kind_code(c.before), kind_code(c.after), SPACE] + display_path(c) + seq![NEWLINE]
}

pub open spec fn status_letter(k: ChangeKind) -> u8 {
    match k {
        ChangeKind::Modified => MODIFIED,
        ChangeKind::Added => ADDED,
        ChangeKind::Deleted => DELETED,
        ChangeKind::Copied => COPIED,
    }
}

/// A line of the `summary` format: one status letter, then the path.
pub open spec fn summary_line(c: Change) -> Seq<u8> {
    seq![status_letter(c.kind), SPACE] + display_path(c) + seq![NEWLINE]
}

fn code_of(m: Option<FileMetadata>) -> (r: u8)
    ensures
        r == kind_code(m),
{
    match m {
        None => ABSENT,
        Some(m) => match m.kind {
            FileKind::Regular => REGULAR,
            FileKind::Executable => EXECUTABLE,
            FileKind::Symlink => SYMLINK,
        },
    }
}

fn push_display(out: &mut Vec<u8>, c: &ChangeRecord)
    ensures
        final(out)@ == old(out)@ + display_path(change_view(*c)),
{
    match &c.source {
        Some(s) => {
            push_text(out, "{");
            push_all(out, s.as_slice());
            push_text(out, " => ");
            push_all(out, c.path.as_slice());
            push_text(out, "}");
            assert(final(out)@ =~= old(out)@ + display_path(change_view(*c)));
        },
        None => push_all(out, c.path.as_slice()),
    }
}

/// The `types` format: for each change, the kind of file before and after
/// and its path. Reads no content.
pub fn render_types(changes: &Vec<ChangeRecord>) -> (r: Vec<u8>)
    ensures
        r@ == concat_lines(changes_view(changes@), |c: Change| types_line(c)),
{
    let ghost cs = changes_view(changes@);
    let ghost f = |c: Change| types_line(c);
    let mut out: Vec<u8> = Vec::new();
    let mut i: usize = 0;
    assert(cs.take(0) =~= Seq::<Change>::empty());
    while i < changes.len()
        invariant
            i <= changes@.len(),
            cs == changes_view(changes@),
            f == (|c: Change| types_line(c)),
            out@ == concat_lines(cs.take(i as int), f),
        decreases changes@.len() - i,
    {
        let c = &changes[i];
        let ghost before = out@;
        out.push(code_of(c.before));
        out.push(code_of(c.after));
        out.push(SPACE);
        push_display(&mut out, c);
        out.push(NEWLINE);
        proof {
            lemma_concat_step(cs, f, i as int);
            assert(cs[i as int] == change_view(*c));
            assert(out@ =~= before + types_line(change_view(*c)));
        }
        i = i + 1;
    }
    assert(cs.take(i as int) =~= cs);
    out
}

/// The `summary` format: for each change, a status letter and its path.
/// Reads no content.
pub fn render_summary(changes: &Vec<ChangeRecord>) -> (r: Vec<u8>)
    ensures
        r@ == concat_lines(changes_view(changes@), |c: Change| summary_line(c)),
{
    let ghost cs = changes_view(changes@);
    let ghost f = |c: Change| summary_line(c);
    let mut out: Vec<u8> = Vec::new();
    let mut i: usize = 0;
    assert(cs.take(0) =~= Seq::<Change>::empty());
    while i < changes.len()
        invariant
            i <= changes@.len(),
            cs == changes_view(changes@),
            f == (|c: Change| summary_line(c)),
            out@ == concat_lines(cs.take(i as int), f),
        decreases changes@.len() - i,
    {
        let c = &changes[i];
        let ghost before = out@;
        let letter = match c.kind {
            ChangeKind::Modified => MODIFIED,
            ChangeKind::Added => ADDED,
            ChangeKind::Deleted => DELETED,
            ChangeKind::Copied => COPIED,
        };
        out.push(letter);
        out.push(SPACE);
        push_display(&mut out, c);
        out.push(NEWLINE);
        proof {
            lemma_concat_step(cs, f, i as int);
            assert(cs[i as int] == change_view(*c));
            assert(out@ =~= before + summary_line(change_view(*c)));
        }
        i = i + 1;
    }
    assert(cs.take(i as int) =~= cs);
    out
}

/// The bytes of a text literal.
pub open spec fn text(s: &str) -> Seq<u8> {
    s.spec_bytes()
}

fn push_text(out: &mut Vec<u8>, s: &str)
    ensures
        final(out)@ == old(out)@ + text(s),
{
    push_all(out, s.as_bytes());
}

/// The path a change's old content is read through: the copy source for a
/// copy, the path itself otherwise.
pub open spec fn source_path(c: Change) -> Seq<u8> {
    match c.source {
        Some(s) => s,
        None => c.path,
    }
}

/// One side's content: empty where the path is absent on that side.
/// `Err(Some(reason))` is a refusal, `Err(None)` a storage fault.
pub open spec fn side_content(store: &Store, policy: &Policy, path: Seq<u8>, m: Option<
    FileMetadata,
>) -> Result<Seq<u8>, Option<Seq<u8>>> {
    match m {
        None => Ok(Seq::empty()),
        Some(m) => guarded_read(store, policy, path, m.id),
    }
}

/// Both contents of a change, old side read first.
pub open spec fn record_contents(store: &Store, policy: &Policy, c: Change) -> Result<
    (Seq<u8>, Seq<u8>),
    Option<Seq<u8>>,
> {
    match side_content(store, policy, source_path(c), c.before) {
        Err(e) => Err(e),
        Ok(a) => match side_content(store, policy, c.path, c.after) {
            Err(e) => Err(e),
            Ok(b) => Ok((a, b)),
        },
    }
}

pub open spec fn contents_view(r: Result<(Vec<u8>, Vec<u8>), ContentError>) -> Result<
    (Seq<u8>, Seq<u8>),
    Option<Seq<u8>>,
> {
    match r {
        Ok((a, b)) => Ok((a@, b@)),
        Err(ContentError::Denied(reason)) => Err(Some(reason@)),
        Err(ContentError::Storage(_)) => Err(None),
    }
}

fn read_side(gs: &GuardedStore, path: &[u8], m: Option<FileMetadata>) -> (r: Result<
    Vec<u8>,
    ContentError,
>)
    ensures
        content_result_view(r) == side_content(gs.inner, &gs.policy, path@, m),
        r matches Err(ContentError::Storage(e)) ==> e == StoreError::MissingObject,
{
    match m {
        None => Ok(Vec::new()),
        Some(m) => gs.open_content(path, m.id),
    }
}

/// Reads both contents of a change through the guarded store.
pub fn read_contents(gs: &GuardedStore, c: &ChangeRecord) -> (r: Result<
    (Vec<u8>, Vec<u8>),
    ContentError,
>)
    ensures
        contents_view(r) == record_contents(gs.inner, &gs.policy, change_view(*c)),
        r matches Err(ContentError::Storage(e)) ==> e == StoreError::MissingObject,
{
    let src = match &c.source {
        Some(s) => s.as_slice(),
        None => c.path.as_slice(),
    };
    let a = match read_side(gs, src, c.before) {
        Ok(a) => a,
        Err(e) => return Err(e),
    };
    let b = match read_side(gs, c.path.as_slice(), c.after) {
        Ok(b) => b,
        Err(e) => return Err(e),
    };
    Ok((a, b))
}

pub open spec fn verb(k: ChangeKind) -> Seq<u8> {
    match k {
        ChangeKind::Modified => text("Modified file "),
        ChangeKind::Added => text("Added file "),
        ChangeKind::Deleted => text("Removed file "),
        ChangeKind::Copied => text("Copied file "),
    }
}

/// A change's content shown inline: a header, then the old lines marked
/// `-` and the new lines marked `+`; nothing below the header when the
/// content did not change.
pub open spec fn inline_body(c: Change, a: Seq<u8>, b: Seq<u8>) -> Seq<u8> {
    verb(c.kind) + display_path(c) + text(":\n") + if a == b {
        Seq::empty()
    } else {
        marked_block(MINUS, a) + marked_block(PLUS, b)
    }
}

/// The line that stands for a change whose content was refused.
pub open spec fn denied_line(c: Change, reason: Seq<u8>) -> Seq<u8> {
    text("Access denied to ") + c.path + text(": ") + reason + text("\n")
}

/// The inline (color-words) format over the changes: each refused read is
/// replaced by its denial line and the rest goes on; `None` when the store
/// itself fails.
pub open spec fn inline_text(store: &Store, policy: &Policy, cs: Seq<Change>) -> Option<Seq<u8>>
    decreases cs.len(),
{
    if cs.len() == 0 {
        Some(Seq::empty())
    } else {
        match inline_text(store, policy, cs.drop_last()) {
            None => None,
            Some(t) => match record_contents(store, policy, cs.last()) {
                Ok((a, b)) => Some(t + inline_body(cs.last(), a, b)),
                Err(Some(reason)) => Some(t + denied_line(cs.last(), reason)),
                Err(None) => None,
            },
        }
    }
}

proof fn lemma_inline_text_stays_none(store: &Store, policy: &Policy, cs: Seq<Change>, i: int)
    requires
        0 <= i <= cs.len(),
        inline_text(store, policy, cs.take(i)) is None,
    ensures
        inline_text(store, policy, cs) is None,
    decreases cs.len() - i,
{
    if i == cs.len() {
        assert(cs.take(i) =~= cs);
    } else {
        assert(cs.take(i + 1).drop_last() =~= cs.take(i));
        lemma_inline_text_stays_none(store, policy, cs, i + 1);
    }
}

fn push_inline_body(out: &mut Vec<u8>, c: &ChangeRecord, a: &Vec<u8>, b: &Vec<u8>)
    ensures
        final(out)@ == old(out)@ + inline_body(change_view(*c), a@, b@),
{
    match c.kind {
        ChangeKind::Modified => push_text(out, "Modified file "),
        ChangeKind::Added => push_text(out, "Added file "),
        ChangeKind::Deleted => push_text(out, "Removed file "),
        ChangeKind::Copied => push_text(out, "Copied file "),
    }
    push_display(out, c);
    push_text(out, ":\n");
    if !bytes_equal(a.as_slice(), b.as_slice()) {
        push_marked(out, MINUS, a.as_slice());
        push_marked(out, PLUS, b.as_slice());
    }
    assert(final(out)@ =~= old(out)@ + inline_body(change_view(*c), a@, b@));
}

fn bytes_equal(a: &[u8], b: &[u8]) -> (r: bool)
    ensures
        r == (a@ == b@),
{
    matches!(crate::path::compare_paths(a, b), core::cmp::Ordering::Equal)
}

fn push_denied_line(out: &mut Vec<u8>, c: &ChangeRecord, reason: &Vec<u8>)
    ensures
        final(out)@ == old(out)@ + denied_line(change_view(*c), reason@),
{
    push_text(out, "Access denied to ");
    push_all(out, c.path.as_slice());
    push_text(out, ": ");
    push_all(out, reason.as_slice());
    push_text(out, "\n");
    assert(final(out)@ =~= old(out)@ + denied_line(change_view(*c), reason@));
}

/// The inline (color-words) format. A refused read puts a denial line where
/// the change's content would stand and rendering goes on, so refusals never
/// make it fail; only a storage fault does.
pub fn render_color_words(gs: &GuardedStore, changes: &Vec<ChangeRecord>) -> (r: Result<
    Vec<u8>,
    StoreError,
>)
    ensures
        match inline_text(gs.inner, &gs.policy, changes_view(changes@)) {
            Some(t) => r matches Ok(out) && out@ == t,
            None => r is Err,
        },
{
    let ghost cs = changes_view(changes@);
    let mut out: Vec<u8> = Vec::new();
    let mut i: usize = 0;
    assert(cs.take(0) =~= Seq::<Change>::empty());
    while i < changes.len()
        invariant
            i <= changes@.len(),
            cs == changes_view(changes@),
            inline_text(gs.inner, &gs.policy, cs.take(i as int)) == Some(out@),
        decreases changes@.len() - i,
    {
        let c = &changes[i];
        proof {
            assert(cs.take(i as int + 1).drop_last() =~= cs.take(i as int));
            assert(cs[i as int] == change_view(*c));
        }
        match read_contents(gs, c) {
            Ok((a, b)) => push_inline_body(&mut out, c, &a, &b),
            Err(ContentError::Denied(reason)) => push_denied_line(&mut out, c, &reason),
            Err(ContentError::Storage(e)) => {
                proof {
                    lemma_inline_text_stays_none(gs.inner, &gs.policy, cs, i as int + 1);
                }
                return Err(e);
            },
        }
        i = i + 1;
    }
    assert(cs.take(i as int) =~= cs);
    Ok(out)
}

/// Why a rendering stopped.
#[derive(Debug)]
pub enum RenderError {
    /// A content read through `path` was refused for `reason`.
    Denied { path: Vec<u8>, reason: Vec<u8> },
    /// The store itself failed.
    Storage(StoreError),
}

/// Why a rendering stopped, as a mathematical value.
pub enum Failure {
    Denied(Seq<u8>, Seq<u8>),
    Storage,
}

pub open spec fn failure_view(e: RenderError) -> Failure {
    match e {
        RenderError::Denied { path, reason } => Failure::Denied(path@, reason@),
        RenderError::Storage(_) => Failure::Storage,
    }
}

/// What the unified format produced: the text of every change before the
/// first one whose content could not be read, and why it stopped, if it did.
pub struct GitOutput {
    pub text: Vec<u8>,
    pub failure: Option<RenderError>,
}

/// One change in unified format: a whole-file hunk that removes every old
/// line and adds every new one; only the header line when the content did
/// not change.
pub open spec fn git_hunk(c: Change, a: Seq<u8>, b: Seq<u8>) -> Seq<u8> {
    git_header(c) + if a == b {
        Seq::empty()
    } else {
        git_sides(c) + git_range(a, b) + marked_block(MINUS, a) + marked_block(PLUS, b)
    }
}

pub open spec fn git_header(c: Change) -> Seq<u8> {
    text("diff --git a/") + source_path(c) + text(" b/") + c.path + text("\n")
}

pub open spec fn git_sides(c: Change) -> Seq<u8> {
    (if c.before is None {
        text("--- /dev/null\n")
    } else {
        text("--- a/") + source_path(c) + text("\n")
    }) + (if c.after is None {
        text("+++ /dev/null\n")
    } else {
        text("+++ b/") + c.path + text("\n")
    })
}

pub open spec fn git_range(a: Seq<u8>, b: Seq<u8>) -> Seq<u8> {
    text("@@ -1,") + decimal(line_count(a)) + text(" +1,") + decimal(line_count(b)) + text(" @@\n")
}

/// The unified format over the changes: all or nothing for each change, and
/// nothing after the first change whose content could not be read.
pub open spec fn git_text(store: &Store, policy: &Policy, cs: Seq<Change>) -> (Seq<u8>, Option<Failure>)
    decreases cs.len(),
{
    if cs.len() == 0 {
        (Seq::empty(), None)
    } else {
        let (t, f) = git_text(store, policy, cs.drop_last());
        if f is Some {
            (t, f)
        } else {
            match record_contents(store, policy, cs.last()) {
                Ok((a, b)) => (t + git_hunk(cs.last(), a, b), None),
                Err(Some(reason)) => (t, Some(Failure::Denied(cs.last().path, reason))),
                Err(None) => (t, Some(Failure::Storage)),
            }
        }
    }
}

proof fn lemma_git_text_stops(store: &Store, policy: &Policy, cs: Seq<Change>, i: int)
    requires
        0 <= i <= cs.len(),
        git_text(store, policy, cs.take(i)).1 is Some,
    ensures
        git_text(store, policy, cs) == git_text(store, policy, cs.take(i)),
    decreases cs.len() - i,
{
    if i == cs.len() {
        assert(cs.take(i) =~= cs);
    } else {
        assert(cs.take(i + 1).drop_last() =~= cs.take(i));
        lemma_git_text_stops(store, policy, cs, i + 1);
    }
}

fn push_git_header(out: &mut Vec<u8>, c: &ChangeRecord)
    ensures
        final(out)@ == old(out)@ + git_header(change_view(*c)),
{
    let src = match &c.source {
        Some(s) => s.as_slice(),
        None => c.path.as_slice(),
    };
    push_text(out, "diff --git a/");
    push_all(out, src);
    push_text(out, " b/");
    push_all(out, c.path.as_slice());
    push_text(out, "\n");
    assert(final(out)@ =~= old(out)@ + git_header(change_view(*c)));
}

fn push_git_sides(out: &mut Vec<u8>, c: &ChangeRecord)
    ensures
        final(out)@ == old(out)@ + git_sides(change_view(*c)),
{
    let src = match &c.source {
        Some(s) => s.as_slice(),
        None => c.path.as_slice(),
    };
    if c.before.is_none() {
        push_text(out, "--- /dev/null\n");
    } else {
        push_text(out, "--- a/");
        push_all(out, src);
        push_text(out, "\n");
    }
    let ghost mid = out@;
    if c.after.is_none() {
        push_text(out, "+++ /dev/null\n");
    } else {
        push_text(out, "+++ b/");
        push_all(out, c.path.as_slice());
        push_text(out, "\n");
    }
    assert(final(out)@ =~= old(out)@ + git_sides(change_view(*c)));
}

fn push_git_range(out: &mut Vec<u8>, a: &Vec<u8>, b: &Vec<u8>)
    ensures
        final(out)@ == old(out)@ + git_range(a@, b@),
{
    push_text(out, "@@ -1,");
    push_decimal(out, count_lines(a.as_slice()) as u128);
    push_text(out, " +1,");
    push_decimal(out, count_lines(b.as_slice()) as u128);
    push_text(out, " @@\n");
    assert(final(out)@ =~= old(out)@ + git_range(a@, b@));
}

fn push_git_hunk(out: &mut Vec<u8>, c: &ChangeRecord, a: &Vec<u8>, b: &Vec<u8>)
    ensures
        final(out)@ == old(out)@ + git_hunk(change_view(*c), a@, b@),
{
    push_git_header(out, c);
    if !bytes_equal(a.as_slice(), b.as_slice()) {
        push_git_sides(out, c);
        push_git_range(out, a, b);
        push_marked(out, MINUS, a.as_slice());
        push_marked(out, PLUS, b.as_slice());
    }
    assert(final(out)@ =~= old(out)@ + git_hunk(change_view(*c), a@, b@));
}

/// The unified ("git") format. It is all or nothing: at the first change
/// whose content cannot be read it stops, keeps what it rendered before, and
/// reports why.
pub fn render_git(gs: &GuardedStore, changes: &Vec<ChangeRecord>) -> (r: GitOutput)
    ensures
        r.text@ == git_text(gs.inner, &gs.policy, changes_view(changes@)).0,
        match git_text(gs.inner, &gs.policy, changes_view(changes@)).1 {
            Some(f) => r.failure matches Some(e) && failure_view(e) == f,
            None => r.failure is None,
        },
{
    let ghost cs = changes_view(changes@);
    let mut out: Vec<u8> = Vec::new();
    let mut i: usize = 0;
    assert(cs.take(0) =~= Seq::<Change>::empty());
    while i < changes.len()
        invariant
            i <= changes@.len(),
            cs == changes_view(changes@),
            git_text(gs.inner, &gs.policy, cs.take(i as int)) == (out@, None::<Failure>),
        decreases changes@.len() - i,
    {
        let c = &changes[i];
        proof {
            assert(cs.take(i as int + 1).drop_last() =~= cs.take(i as int));
            assert(cs[i as int] == change_view(*c));
        }
        let failure = match read_contents(gs, c) {
            Ok((a, b)) => {
                push_git_hunk(&mut out, c, &a, &b);
                None
            },
            Err(ContentError::Denied(reason)) => Some(
                RenderError::Denied { path: crate::store::copy_bytes(c.path.as_slice()), reason },
            ),
            Err(ContentError::Storage(e)) => Some(RenderError::Storage(e)),
        };
        if failure.is_some() {
            proof {
                lemma_git_text_stops(gs.inner, &gs.policy, cs, i as int + 1);
            }
            return GitOutput { text: out, failure };
        }
        i = i + 1;
    }
    assert(cs.take(i as int) =~= cs);
    GitOutput { text: out, failure: None }
}

/// What showing files produced: the contents that could be read, one after
/// the other, and a warning line for each refused path.
pub struct ShowOutput {
    pub text: Vec<u8>,
    pub warnings: Vec<u8>,
}

pub open spec fn show_warning(path: Seq<u8>, reason: Seq<u8>) -> Seq<u8> {
    text("Path '") + path + text("' exists but access is denied: ") + reason + text("\n")
}

/// Showing the files of a tree: each path's content is read on its own, a
/// refusal becomes a warning and the next path is shown; `None` when the
/// store itself fails.
pub open spec fn show_text(store: &Store, policy: &Policy, t: TreeView) -> Option<(Seq<u8>, Seq<u8>)>
    decreases t.len(),
{
    if t.len() == 0 {
        Some((Seq::empty(), Seq::empty()))
    } else {
        match show_text(store, policy, t.drop_last()) {
            None => None,
            Some((o, w)) => match guarded_read(store, policy, t.last().0, t.last().1.id) {
                Ok(c) => Some((o + c, w)),
                Err(Some(reason)) => Some((o, w + show_warning(t.last().0, reason))),
                Err(None) => None,
            },
        }
    }
}

proof fn lemma_show_text_stays_none(store: &Store, policy: &Policy, t: TreeView, i: int)
    requires
        0 <= i <= t.len(),
        show_text(store, policy, t.take(i)) is None,
    ensures
        show_text(store, policy, t) is None,
    decreases t.len() - i,
{
    if i == t.len() {
        assert(t.take(i) =~= t);
    } else {
        assert(t.take(i + 1).drop_last() =~= t.take(i));
        lemma_show_text_stays_none(store, policy, t, i + 1);
    }
}

/// Shows every file of a tree. Refused paths only add warnings; only a
/// storage fault fails.
pub fn show_files(gs: &GuardedStore, tree: &Tree) -> (r: Result<ShowOutput, StoreError>)
    ensures
        match show_text(gs.inner, &gs.policy, tree@) {
            Some((o, w)) => r matches Ok(s) && s.text@ == o && s.warnings@ == w,
            None => r is Err,
        },
{
    let mut text_out: Vec<u8> = Vec::new();
    let mut warnings: Vec<u8> = Vec::new();
    let mut i: usize = 0;
    assert(tree@.take(0) =~= Seq::<(Seq<u8>, FileMetadata)>::empty());
    while i < tree.len()
        invariant
            i <= tree@.len(),
            show_text(gs.inner, &gs.policy, tree@.take(i as int)) == Some((text_out@, warnings@)),
        decreases tree@.len() - i,
    {
        let e = tree.entry(i);
        proof {
            assert(tree@.take(i as int + 1).drop_last() =~= tree@.take(i as int));
        }
        match gs.open_content(e.path.as_slice(), e.meta.id) {
            Ok(c) => push_all(&mut text_out, c.as_slice()),
            Err(ContentError::Denied(reason)) => {
                let ghost w0 = warnings@;
                push_text(&mut warnings, "Path '");
                push_all(&mut warnings, e.path.as_slice());
                push_text(&mut warnings, "' exists but access is denied: ");
                push_all(&mut warnings, reason.as_slice());
                push_text(&mut warnings, "\n");
                assert(warnings@ =~= w0 + show_warning(e.path@, reason@));
            },
            Err(ContentError::Storage(err)) => {
                proof {
                    lemma_show_text_stays_none(gs.inner, &gs.policy, tree@, i as int + 1);
                }
                return Err(err);
            },
        }
        i = i + 1;
    }
    assert(tree@.take(i as int) =~= tree@);
    Ok(ShowOutput { text: text_out, warnings })
}

/// Widest histogram of the `stat` format; longer ones are scaled down to it.
pub const STAT_WIDTH: u128 = 40;

/// Deletions and insertions of a change, counting every old line as deleted
/// and every new line as inserted when the content changed. A refused read
/// counts as no change; `None` is a storage fault.
pub open spec fn line_delta(store: &Store, policy: &Policy, c: Change) -> Option<(nat, nat)> {
    match record_contents(store, policy, c) {
        Ok((a, b)) => Some(
            if a == b {
                (0nat, 0nat)
            } else {
                (line_count(a), line_count(b))
            },
        ),
        Err(Some(_)) => Some((0nat, 0nat)),
        Err(None) => None,
    }
}

pub open spec fn stat_deltas(store: &Store, policy: &Policy, cs: Seq<Change>) -> Option<
    Seq<(nat, nat)>,
>
    decreases cs.len(),
{
    if cs.len() == 0 {
        Some(Seq::empty())
    } else {
        match stat_deltas(store, policy, cs.drop_last()) {
            None => None,
            Some(ds) => match line_delta(store, policy, cs.last()) {
                None => None,
                Some(d) => Some(ds.push(d)),
            },
        }
    }
}

proof fn lemma_stat_deltas_stay_none(store: &Store, policy: &Policy, cs: Seq<Change>, i: int)
    requires
        0 <= i <= cs.len(),
        stat_deltas(store, policy, cs.take(i)) is None,
    ensures
        stat_deltas(store, policy, cs) is None,
    decreases cs.len() - i,
{
    if i == cs.len() {
        assert(cs.take(i) =~= cs);
    } else {
        assert(cs.take(i + 1).drop_last() =~= cs.take(i));
        lemma_stat_deltas_stay_none(store, policy, cs, i + 1);
    }
}

proof fn lemma_stat_deltas_len(store: &Store, policy: &Policy, cs: Seq<Change>)
    ensures
        stat_deltas(store, policy, cs) matches Some(ds) ==> ds.len() == cs.len(),
    decreases cs.len(),
{
    if cs.len() > 0 {
        lemma_stat_deltas_len(store, policy, cs.drop_last());
    }
}

/// Length of the longest displayed path.
pub open spec fn display_width(cs: Seq<Change>) -> nat
    decreases cs.len(),
{
    if cs.len() == 0 {
        0
    } else {
        let w = display_width(cs.drop_last());
        let l = display_path(cs.last()).len();
        if w < l {
            l
        } else {
            w
        }
    }
}

/// `+` for insertions, then `-` for deletions, scaled to [`STAT_WIDTH`].
pub open spec fn histogram(ins: nat, del: nat) -> Seq<u8> {
    if ins + del <= STAT_WIDTH {
        repeat(PLUS, ins) + repeat(MINUS, del)
    } else {
        repeat(PLUS, ins * (STAT_WIDTH as nat) / (ins + del)) + repeat(
            MINUS,
            del * (STAT_WIDTH as nat) / (ins + del),
        )
    }
}

/// A line of the `stat` format: the padded path, the number of changed
/// lines and the histogram. `d` is (deletions, insertions).
pub open spec fn stat_line(c: Change, d: (nat, nat), width: nat) -> Seq<u8> {
    display_path(c) + repeat(SPACE, (width - display_path(c).len()) as nat) + text(" | ") + decimal(
        d.0 + d.1,
    ) + (if d.0 + d.1 > 0 {
        seq![SPACE] + histogram(d.1, d.0)
    } else {
        Seq::empty()
    }) + seq![NEWLINE]
}

pub open spec fn stat_body(cs: Seq<Change>, ds: Seq<(nat, nat)>, width: nat) -> Seq<u8>
    decreases cs.len(),
{
    if cs.len() == 0 || ds.len() == 0 {
        Seq::empty()
    } else {
        stat_body(cs.drop_last(), ds.drop_last(), width) + stat_line(cs.last(), ds.last(), width)
    }
}

pub open spec fn total_del(ds: Seq<(nat, nat)>) -> nat
    decreases ds.len(),
{
    if ds.len() == 0 {
        0
    } else {
        total_del(ds.drop_last()) + ds.last().0
    }
}

pub open spec fn total_ins(ds: Seq<(nat, nat)>) -> nat
    decreases ds.len(),
{
    if ds.len() == 0 {
        0
    } else {
        total_ins(ds.drop_last()) + ds.last().1
    }
}

pub open spec fn count_noun(n: nat, one: Seq<u8>, many: Seq<u8>) -> Seq<u8> {
    decimal(n) + if n == 1 {
        one
    } else {
        many
    }
}

/// The last line of the `stat` format.
pub open spec fn stat_totals(files: nat, ins: nat, del: nat) -> Seq<u8> {
    count_noun(files, text(" file changed, "), text(" files changed, ")) + count_noun(
        ins,
        text(" insertion(+), "),
        text(" insertions(+), "),
    ) + count_noun(del, text(" deletion(-)\n"), text(" deletions(-)\n"))
}

/// The `stat` format; `None` when the store itself fails.
pub open spec fn stat_text(store: &Store, policy: &Policy, cs: Seq<Change>) -> Option<Seq<u8>> {
    match stat_deltas(store, policy, cs) {
        None => None,
        Some(ds) => Some(
            stat_body(cs, ds, display_width(cs)) + stat_totals(cs.len(), total_ins(ds), total_del(ds)),
        ),
    }
}

fn delta_of(gs: &GuardedStore, c: &ChangeRecord) -> (r: Result<(usize, usize), StoreError>)
    ensures
        match line_delta(gs.inner, &gs.policy, change_view(*c)) {
            Some(d) => r matches Ok(x) && x.0 as nat == d.0 && x.1 as nat == d.1,
            None => r is Err,
        },
{
    match read_contents(gs, c) {
        Ok((a, b)) => {
            if bytes_equal(a.as_slice(), b.as_slice()) {
                Ok((0, 0))
            } else {
                Ok((count_lines(a.as_slice()), count_lines(b.as_slice())))
            }
        },
        Err(ContentError::Denied(_)) => Ok((0, 0)),
        Err(ContentError::Storage(e)) => Err(e),
    }
}

fn display_len(c: &ChangeRecord) -> (r: u128)
    ensures
        r == display_path(change_view(*c)).len(),
        r <= 2 * (usize::MAX as nat) + 6,
{
    proof {
        broadcast use vstd::string::is_ascii_spec_bytes;

        reveal_strlit("{");
        reveal_strlit(" => ");
        reveal_strlit("}");
        assert(vstd::string::is_ascii("{"));
        assert(vstd::string::is_ascii(" => "));
        assert(vstd::string::is_ascii("}"));
        assert(text("{").len() == 1);
        assert(text(" => ").len() == 4);
        assert(text("}").len() == 1);
    }
    match &c.source {
        Some(s) => s.len() as u128 + c.path.len() as u128 + 6,
        None => c.path.len() as u128,
    }
}

fn push_count_noun(out: &mut Vec<u8>, n: u128, one: &str, many: &str)
    ensures
        final(out)@ == old(out)@ + count_noun(n as nat, text(one), text(many)),
{
    push_decimal(out, n);
    if n == 1 {
        push_text(out, one);
    } else {
        push_text(out, many);
    }
    assert(final(out)@ =~= old(out)@ + count_noun(n as nat, text(one), text(many)));
}

fn push_histogram(out: &mut Vec<u8>, ins: usize, del: usize)
    ensures
        final(out)@ == old(out)@ + histogram(ins as nat, del as nat),
{
    let total = ins as u128 + del as u128;
    if total <= STAT_WIDTH {
        push_repeat(out, PLUS, ins as u128);
        push_repeat(out, MINUS, del as u128);
    } else {
        assert(ins as u128 * STAT_WIDTH <= u128::MAX) by (nonlinear_arith)
            requires
                ins <= usize::MAX,
                STAT_WIDTH == 40,
        ;
        assert(del as u128 * STAT_WIDTH <= u128::MAX) by (nonlinear_arith)
            requires
                del <= usize::MAX,
                STAT_WIDTH == 40,
        ;
        push_repeat(out, PLUS, ins as u128 * STAT_WIDTH / total);
        push_repeat(out, MINUS, del as u128 * STAT_WIDTH / total);
    }
    assert(final(out)@ =~= old(out)@ + histogram(ins as nat, del as nat));
}

fn push_stat_line(out: &mut Vec<u8>, c: &ChangeRecord, del: usize, ins: usize, width: u128)
    requires
        width >= display_path(change_view(*c)).len(),
    ensures
        final(out)@ == old(out)@ + stat_line(change_view(*c), (del as nat, ins as nat), width as nat),
{
    push_display(out, c);
    push_repeat(out, SPACE, width - display_len(c));
    push_text(out, " | ");
    push_decimal(out, del as u128 + ins as u128);
    let ghost mid = out@;
    if del > 0 || ins > 0 {
        out.push(SPACE);
        push_histogram(out, ins, del);
    }
    out.push(NEWLINE);
    assert(final(out)@ =~= old(out)@ + stat_line(
        change_view(*c),
        (del as nat, ins as nat),
        width as nat,
    ));
}

/// The `stat` format: a line per change with its number of changed lines
/// and a histogram, then the totals. A refused read counts as no change and
/// the rendering goes on; only a storage fault fails.
pub fn render_stat(gs: &GuardedStore, changes: &Vec<ChangeRecord>) -> (r: Result<
    Vec<u8>,
    StoreError,
>)
    ensures
        match stat_text(gs.inner, &gs.policy, changes_view(changes@)) {
            Some(t) => r matches Ok(out) && out@ == t,
            None => r is Err,
        },
{
    let ghost cs = changes_view(changes@);
    let mut dels: Vec<usize> = Vec::new();
    let mut inss: Vec<usize> = Vec::new();
    let mut width: u128 = 0;
    let mut i: usize = 0;
    assert(cs.take(0) =~= Seq::<Change>::empty());
    while i < changes.len()
        invariant
            i <= changes@.len(),
            cs == changes_view(changes@),
            dels@.len() == i,
            inss@.len() == i,
            width == display_width(cs.take(i as int)),
            width <= 2 * (usize::MAX as nat) + 6,
            stat_deltas(gs.inner, &gs.policy, cs.take(i as int)) == Some(
                Seq::new(i as nat, |k: int| (dels@[k] as nat, inss@[k] as nat)),
            ),
        decreases changes@.len() - i,
    {
        let c = &changes[i];
        proof {
            assert(cs.take(i as int + 1).drop_last() =~= cs.take(i as int));
            assert(cs[i as int] == change_view(*c));
        }
        match delta_of(gs, c) {
            Ok((d, n)) => {
                dels.push(d);
                inss.push(n);
            },
            Err(e) => {
                proof {
                    lemma_stat_deltas_stay_none(gs.inner, &gs.policy, cs, i as int + 1);
                }
                return Err(e);
            },
        }
        let l = display_len(c);
        if width < l {
            width = l;
        }
        i = i + 1;
        assert(Seq::new(i as nat, |k: int| (dels@[k] as nat, inss@[k] as nat)) =~= Seq::new(
            (i - 1) as nat,
            |k: int| (dels@[k] as nat, inss@[k] as nat),
        ).push((dels@[i - 1] as nat, inss@[i - 1] as nat)));
    }
    assert(cs.take(i as int) =~= cs);
    let ghost ds = Seq::new(i as nat, |k: int| (dels@[k] as nat, inss@[k] as nat));
    let mut out: Vec<u8> = Vec::new();
    let mut total_d: u128 = 0;
    let mut total_i: u128 = 0;
    let mut j: usize = 0;
    proof {
        lemma_display_width_bound(cs);
    }
    while j < changes.len()
        invariant
            j <= changes@.len(),
            cs == changes_view(changes@),
            dels@.len() == changes@.len(),
            inss@.len() == changes@.len(),
            ds == Seq::new(changes@.len() as nat, |k: int| (dels@[k] as nat, inss@[k] as nat)),
            width == display_width(cs),
            forall|k: int| 0 <= k < cs.len() ==> display_path(#[trigger] cs[k]).len() <= width,
            out@ == stat_body(cs.take(j as int), ds.take(j as int), width as nat),
            total_d == total_del(ds.take(j as int)),
            total_i == total_ins(ds.take(j as int)),
            total_d <= j * (usize::MAX as nat),
            total_i <= j * (usize::MAX as nat),
        decreases changes@.len() - j,
    {
        let c = &changes[j];
        proof {
            assert(cs.take(j as int + 1).drop_last() =~= cs.take(j as int));
            assert(ds.take(j as int + 1).drop_last() =~= ds.take(j as int));
            assert(cs[j as int] == change_view(*c));
            assert(j * (usize::MAX as nat) + usize::MAX <= u128::MAX) by (nonlinear_arith)
                requires
                    j < usize::MAX,
            ;
        }
        push_stat_line(&mut out, c, dels[j], inss[j], width);
        total_d = total_d + dels[j] as u128;
        total_i = total_i + inss[j] as u128;
        proof {
            assert((j + 1) * (usize::MAX as nat) == j * (usize::MAX as nat) + usize::MAX) by (nonlinear_arith);
        }
        j = j + 1;
    }
    assert(cs.take(j as int) =~= cs);
    assert(ds.take(j as int) =~= ds);
    push_count_noun(&mut out, changes.len() as u128, " file changed, ", " files changed, ");
    push_count_noun(&mut out, total_i, " insertion(+), ", " insertions(+), ");
    push_count_noun(&mut out, total_d, " deletion(-)\n", " deletions(-)\n");
    proof {
        lemma_stat_deltas_len(gs.inner, &gs.policy, cs);
    }
    Ok(out)
}

proof fn lemma_display_width_bound(cs: Seq<Change>)
    ensures
        forall|k: int| 0 <= k < cs.len() ==> display_path(#[trigger] cs[k]).len() <= display_width(cs),
    decreases cs.len(),
{
    if cs.len() > 0 {
        lemma_display_width_bound(cs.drop_last());
        assert forall|k: int| 0 <= k < cs.len() implies display_path(#[trigger] cs[k]).len()
            <= display_width(cs) by {
            if k < cs.len() - 1 {
                assert(cs[k] == cs.drop_last()[k]);
            }
        }
    }
}

} // verus!
