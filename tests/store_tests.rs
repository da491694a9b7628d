use jj_lib::path::{compare_paths, contains_bytes};
use jj_lib::store::{ContentError, Entry, FileKind, FileMetadata, GuardedStore, Policy, Store, StoreError, Tree};
use std::cmp::Ordering;

fn entry(path: &str, id: usize) -> Entry {
    Entry { path: path.as_bytes().to_vec(), meta: FileMetadata { kind: FileKind::Regular, id } }
}

fn deny(pattern: &str) -> Policy {
    Policy::DenyMatching { pattern: pattern.as_bytes().to_vec(), reason: b"No access".to_vec() }
}

#[test]
fn paths_compare_bytewise() {
    assert_eq!(compare_paths(b"a", b"b"), Ordering::Less);
    assert_eq!(compare_paths(b"ab", b"a"), Ordering::Greater);
    assert_eq!(compare_paths(b"dir/secret", b"dir/secret"), Ordering::Equal);
    assert_eq!(compare_paths(b"", b"a"), Ordering::Less);
    assert_eq!(compare_paths(b"deleted-secret", b"dir/secret"), Ordering::Less);
}

#[test]
fn substring_search() {
    assert!(contains_bytes(b"dir/secret", b"secret"));
    assert!(contains_bytes(b"secret", b"secret"));
    assert!(!contains_bytes(b"secre", b"secret"));
    assert!(contains_bytes(b"abc", b""));
    assert!(!contains_bytes(b"a-first", b"secret"));
}

#[test]
fn equal_bytes_share_an_id() {
    let mut store = Store::new();
    let a = store.write_blob(b"foo\n");
    let b = store.write_blob(b"bar\n");
    let c = store.write_blob(b"foo\n");
    assert_eq!(a, c);
    assert_ne!(a, b);
    assert_eq!(store.read(b).unwrap(), b"bar\n".to_vec());
    assert_eq!(store.read(7), Err(StoreError::MissingObject));
}

#[test]
fn tree_requires_sorted_unique_paths() {
    assert!(Tree::from_entries(vec![entry("a", 0), entry("b", 0)]).is_some());
    assert!(Tree::from_entries(vec![entry("b", 0), entry("a", 0)]).is_none());
    assert!(Tree::from_entries(vec![entry("a", 0), entry("a", 1)]).is_none());
    assert_eq!(Tree::empty().len(), 0);
}

#[test]
fn list_ignores_policy() {
    let mut store = Store::new();
    let id = store.write_blob(b"bar\n");
    let tree = Tree::from_entries(vec![entry("a-first", id), entry("secret", id), entry("z-last", id)]).unwrap();
    let t = store.write_tree(tree);
    let gs = GuardedStore::new(&store, deny("secret"));
    let listed = gs.list(t).unwrap();
    assert_eq!(listed.len(), 3);
    assert_eq!(listed.entry(1).path, b"secret".to_vec());
    assert_eq!(listed.entry(1).meta, FileMetadata { kind: FileKind::Regular, id });
    assert!(matches!(gs.list(5), Err(StoreError::MissingTree)));
}

#[test]
fn list_paths_succeeds_when_everything_is_denied() {
    let mut store = Store::new();
    let x = store.write_blob(b"foo\n");
    let y = store.write_blob(b"bar\n");
    let tree = Tree::from_entries(vec![entry("a-first", x), entry("secret", y), entry("z-last", x)]).unwrap();
    let t = store.write_tree(tree);
    let gs = GuardedStore::new(&store, deny(""));
    let paths = gs.list_paths(t).unwrap();
    assert_eq!(paths, vec![b"a-first".to_vec(), b"secret".to_vec(), b"z-last".to_vec()]);
    assert!(matches!(gs.open_content(b"a-first", x), Err(ContentError::Denied(_))));
}

#[test]
fn open_content_denies_or_passes_through() {
    let mut store = Store::new();
    let x = store.write_blob(b"foo\n");
    let gs = GuardedStore::new(&store, deny("secret"));
    match gs.open_content(b"dir/secret", x) {
        Err(ContentError::Denied(reason)) => assert_eq!(reason, b"No access".to_vec()),
        _ => panic!("expected a denial"),
    }
    assert_eq!(gs.open_content(b"a-first", x).unwrap(), b"foo\n".to_vec());
    assert!(matches!(gs.open_content(b"a-first", 9), Err(ContentError::Storage(StoreError::MissingObject))));
    // A denied path is refused before the store is asked.
    assert!(matches!(gs.open_content(b"secret", 9), Err(ContentError::Denied(_))));
    let open = GuardedStore::new(&store, Policy::AllowAll);
    assert_eq!(open.open_content(b"secret", x).unwrap(), b"foo\n".to_vec());
}
