use jj_lib::diff::{compare_trees, detect_copies, diff_stored, diff_trees, find_entry, ChangeKind, ChangeRecord};
use jj_lib::store::{Entry, FileKind, FileMetadata, GuardedStore, Policy, Store, Tree};

fn tree(store: &mut Store, files: &[(&str, &str)]) -> Tree {
    let entries = files
        .iter()
        .map(|(p, c)| Entry {
            path: p.as_bytes().to_vec(),
            meta: FileMetadata { kind: FileKind::Regular, id: store.write_blob(c.as_bytes()) },
        })
        .collect();
    Tree::from_entries(entries).unwrap()
}

fn kinds(rs: &[ChangeRecord]) -> Vec<(ChangeKind, String)> {
    rs.iter().map(|r| (r.kind, String::from_utf8(r.path.clone()).unwrap())).collect()
}

#[test]
fn identical_trees_have_no_changes() {
    let mut store = Store::new();
    let a = tree(&mut store, &[("a", "1"), ("b/c", "2"), ("d", "3")]);
    let b = tree(&mut store, &[("a", "1"), ("b/c", "2"), ("d", "3")]);
    assert!(diff_trees(&a, &b).is_empty());
    assert!(diff_trees(&a, &a).is_empty());
    assert!(diff_trees(&Tree::empty(), &Tree::empty()).is_empty());
}

#[test]
fn merge_walk_classifies_paths() {
    let mut store = Store::new();
    let a = tree(&mut store, &[("a", "1"), ("b", "2"), ("d", "4")]);
    let b = tree(&mut store, &[("b", "2"), ("c", "3"), ("d", "5")]);
    let rs = compare_trees(&a, &b);
    assert_eq!(
        kinds(&rs),
        vec![
            (ChangeKind::Deleted, "a".to_string()),
            (ChangeKind::Added, "c".to_string()),
            (ChangeKind::Modified, "d".to_string()),
        ]
    );
    assert_eq!(rs[0].after, None);
    assert_eq!(rs[1].before, None);
}

#[test]
fn kind_change_is_a_modification() {
    let mut store = Store::new();
    let id = store.write_blob(b"x");
    let a = Tree::from_entries(vec![Entry { path: b"f".to_vec(), meta: FileMetadata { kind: FileKind::Regular, id } }]).unwrap();
    let b = Tree::from_entries(vec![Entry { path: b"f".to_vec(), meta: FileMetadata { kind: FileKind::Executable, id } }]).unwrap();
    assert_eq!(kinds(&diff_trees(&a, &b)), vec![(ChangeKind::Modified, "f".to_string())]);
}

#[test]
fn copy_detected_from_modified_source() {
    let mut store = Store::new();
    let a = tree(&mut store, &[("a", "foo")]);
    let b = tree(&mut store, &[("a", "bar"), ("b", "bar")]);
    let rs = diff_trees(&a, &b);
    assert_eq!(rs.len(), 2);
    assert_eq!(rs[0].kind, ChangeKind::Modified);
    assert_eq!(rs[0].path, b"a".to_vec());
    assert_eq!(rs[1].kind, ChangeKind::Copied);
    assert_eq!(rs[1].source, Some(b"a".to_vec()));
    assert_eq!(rs[1].path, b"b".to_vec());
}

#[test]
fn copy_source_is_smallest_candidate() {
    let mut store = Store::new();
    let a = tree(&mut store, &[("m", "same"), ("p", "same"), ("z", "other")]);
    let b = tree(&mut store, &[("m", "same"), ("n", "same"), ("p", "same"), ("z", "other")]);
    let rs = diff_trees(&a, &b);
    assert_eq!(rs.len(), 1);
    assert_eq!(rs[0].kind, ChangeKind::Copied);
    assert_eq!(rs[0].source, Some(b"m".to_vec()));
}

#[test]
fn rename_from_deleted_path() {
    let mut store = Store::new();
    let a = tree(&mut store, &[("old", "content")]);
    let b = tree(&mut store, &[("new", "content")]);
    let rs = diff_trees(&a, &b);
    assert_eq!(
        kinds(&rs),
        vec![(ChangeKind::Copied, "new".to_string()), (ChangeKind::Deleted, "old".to_string())]
    );
    assert_eq!(rs[0].source, Some(b"old".to_vec()));
}

#[test]
fn added_without_match_stays_added() {
    let mut store = Store::new();
    let a = tree(&mut store, &[("a", "1")]);
    let b = tree(&mut store, &[("a", "1"), ("b", "2")]);
    let raw = compare_trees(&a, &b);
    let rs = detect_copies(raw, &a, &b);
    assert_eq!(kinds(&rs), vec![(ChangeKind::Added, "b".to_string())]);
    assert_eq!(rs[0].source, None);
}

#[test]
fn lookup_by_path() {
    let mut store = Store::new();
    let t = tree(&mut store, &[("a", "1"), ("b", "2")]);
    assert_eq!(find_entry(&t, b"b").map(|m| m.id), Some(1));
    assert_eq!(find_entry(&t, b"c"), None);
}

#[test]
fn diff_of_stored_trees() {
    let mut store = Store::new();
    let a = tree(&mut store, &[("secret", "1")]);
    let b = tree(&mut store, &[("secret", "2")]);
    let ta = store.write_tree(a);
    let tb = store.write_tree(b);
    let gs = GuardedStore::new(&store, Policy::DenyMatching { pattern: b"secret".to_vec(), reason: b"No access".to_vec() });
    let rs = diff_stored(&gs, ta, tb).unwrap();
    assert_eq!(kinds(&rs), vec![(ChangeKind::Modified, "secret".to_string())]);
    assert!(diff_stored(&gs, ta, 9).is_err());
}
