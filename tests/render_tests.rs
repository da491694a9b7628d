use jj_lib::diff::diff_trees;
use jj_lib::render::{render_color_words, render_git, render_stat, render_summary, render_types, show_files, RenderError};
use jj_lib::store::{Entry, FileKind, FileMetadata, GuardedStore, Policy, Store, Tree};

fn tree(store: &mut Store, files: &[(&str, &str)]) -> Tree {
    let entries = files
        .iter()
        .map(|(p, c)| Entry {
            path: p.as_bytes().to_vec(),
            meta: FileMetadata { kind: FileKind::Regular, id: store.write_blob(c.as_bytes()) },
        })
        .collect();
    Tree::from_entries(entries).unwrap()
}

fn deny_secret() -> Policy {
    Policy::DenyMatching { pattern: b"secret".to_vec(), reason: b"No access".to_vec() }
}

fn text(b: Vec<u8>) -> String {
    String::from_utf8(b).unwrap()
}

#[test]
fn metadata_formats_without_denials() {
    let mut store = Store::new();
    let a = tree(&mut store, &[("x", "foo")]);
    let b = tree(&mut store, &[("x", "bar")]);
    let rs = diff_trees(&a, &b);
    let gs = GuardedStore::new(&store, Policy::AllowAll);
    assert_eq!(text(render_types(&rs)), "FF x\n");
    assert_eq!(text(render_summary(&rs)), "M x\n");
    assert_eq!(
        text(render_stat(&gs, &rs).unwrap()),
        "x | 2 +-\n1 file changed, 1 insertion(+), 1 deletion(-)\n"
    );
}

#[test]
fn denied_path_inline_and_git() {
    let mut store = Store::new();
    let a = tree(&mut store, &[("s", "foo")]);
    let b = tree(&mut store, &[("s", "bar")]);
    let rs = diff_trees(&a, &b);
    let gs = GuardedStore::new(&store, deny_secret_s());
    assert_eq!(text(render_color_words(&gs, &rs).unwrap()), "Access denied to s: No access\n");
    let out = render_git(&gs, &rs);
    assert!(out.text.is_empty());
    match out.failure {
        Some(RenderError::Denied { path, reason }) => {
            assert_eq!(path, b"s".to_vec());
            assert_eq!(reason, b"No access".to_vec());
        }
        _ => panic!("expected a denial"),
    }
}

fn deny_secret_s() -> Policy {
    Policy::DenyMatching { pattern: b"s".to_vec(), reason: b"No access".to_vec() }
}

#[test]
fn copy_rendered_in_summary_and_types() {
    let mut store = Store::new();
    let a = tree(&mut store, &[("a", "foo")]);
    let b = tree(&mut store, &[("a", "bar"), ("b", "bar")]);
    let rs = diff_trees(&a, &b);
    assert_eq!(text(render_summary(&rs)), "M a\nC {a => b}\n");
    assert_eq!(text(render_types(&rs)), "FF a\nFF {a => b}\n");
}

fn acl_trees(store: &mut Store) -> (Tree, Tree) {
    let a = tree(
        store,
        &[("a-first", "foo\n"), ("deleted-secret", "foo\n"), ("dir/secret", "foo\n"), ("modified-secret", "foo\n"), ("z-last", "foo\n")],
    );
    let b = tree(
        store,
        &[("a-first", "bar\n"), ("added-secret", "bar\n"), ("dir/secret", "bar\n"), ("modified-secret", "bar\n"), ("z-last", "bar\n")],
    );
    (a, b)
}

#[test]
fn acl_diff_formats() {
    let mut store = Store::new();
    let (a, b) = acl_trees(&mut store);
    let rs = diff_trees(&a, &b);
    let gs = GuardedStore::new(&store, deny_secret());
    assert_eq!(
        text(render_summary(&rs)),
        "M a-first\nC {a-first => added-secret}\nD deleted-secret\nM dir/secret\nM modified-secret\nM z-last\n"
    );
    assert_eq!(
        text(render_types(&rs)),
        "FF a-first\nFF {a-first => added-secret}\nF- deleted-secret\nFF dir/secret\nFF modified-secret\nFF z-last\n"
    );
    assert_eq!(
        text(render_color_words(&gs, &rs).unwrap()),
        "Modified file a-first:\n-foo\n+bar\n\
         Access denied to added-secret: No access\n\
         Access denied to deleted-secret: No access\n\
         Access denied to dir/secret: No access\n\
         Access denied to modified-secret: No access\n\
         Modified file z-last:\n-foo\n+bar\n"
    );
    assert_eq!(
        text(render_stat(&gs, &rs).unwrap()),
        "a-first                   | 2 +-\n\
         {a-first => added-secret} | 0\n\
         deleted-secret            | 0\n\
         dir/secret                | 0\n\
         modified-secret           | 0\n\
         z-last                    | 2 +-\n\
         6 files changed, 2 insertions(+), 2 deletions(-)\n"
    );
    let git = render_git(&gs, &rs);
    assert_eq!(
        text(git.text),
        "diff --git a/a-first b/a-first\n--- a/a-first\n+++ b/a-first\n@@ -1,1 +1,1 @@\n-foo\n+bar\n"
    );
    match git.failure {
        Some(RenderError::Denied { path, reason }) => {
            assert_eq!(path, b"added-secret".to_vec());
            assert_eq!(reason, b"No access".to_vec());
        }
        _ => panic!("expected a denial"),
    }
}

#[test]
fn acl_file_list_show() {
    let mut store = Store::new();
    let t = tree(&mut store, &[("a-first", "foo\n"), ("secret", "bar\n"), ("z-last", "baz\n")]);
    let id = store.write_tree(t);
    let gs = GuardedStore::new(&store, deny_secret());
    let paths = gs.list_paths(id).unwrap();
    assert_eq!(paths, vec![b"a-first".to_vec(), b"secret".to_vec(), b"z-last".to_vec()]);
    let listed = gs.list(id).unwrap();
    let shown = show_files(&gs, listed).unwrap();
    assert_eq!(text(shown.text), "foo\nbaz\n");
    assert_eq!(text(shown.warnings), "Path 'secret' exists but access is denied: No access\n");
}

#[test]
fn stat_scales_long_histograms() {
    let mut store = Store::new();
    let old: String = (0..30).map(|i| format!("o{}\n", i)).collect();
    let new: String = (0..50).map(|i| format!("n{}\n", i)).collect();
    let a = tree(&mut store, &[("f", &old)]);
    let b = tree(&mut store, &[("f", &new)]);
    let rs = diff_trees(&a, &b);
    let gs = GuardedStore::new(&store, Policy::AllowAll);
    let expected = format!("f | 80 {}{}\n1 file changed, 50 insertions(+), 30 deletions(-)\n", "+".repeat(25), "-".repeat(15));
    assert_eq!(text(render_stat(&gs, &rs).unwrap()), expected);
}

#[test]
fn stat_of_empty_change_list() {
    let store = Store::new();
    let gs = GuardedStore::new(&store, Policy::AllowAll);
    assert_eq!(text(render_stat(&gs, &Vec::new()).unwrap()), "0 files changed, 0 insertions(+), 0 deletions(-)\n");
}

#[test]
fn git_added_and_deleted_files() {
    let mut store = Store::new();
    let a = tree(&mut store, &[("gone", "x\ny")]);
    let b = tree(&mut store, &[("new", "1\n2\n")]);
    let rs = diff_trees(&a, &b);
    let gs = GuardedStore::new(&store, Policy::AllowAll);
    let out = render_git(&gs, &rs);
    assert!(out.failure.is_none());
    assert_eq!(
        text(out.text),
        "diff --git a/gone b/gone\n--- a/gone\n+++ /dev/null\n@@ -1,2 +1,0 @@\n-x\n-y\n\
         diff --git a/new b/new\n--- /dev/null\n+++ b/new\n@@ -1,0 +1,2 @@\n+1\n+2\n"
    );
}
