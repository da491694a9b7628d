use jj_lib::unique::{count_new_keys, unique, SeenKeys, UniqueBy};

#[test]
fn unique_keeps_first_occurrences() {
    assert_eq!(unique(&vec![3, 1, 3, 2, 1, 4]), vec![3, 1, 2, 4]);
    assert_eq!(unique(&vec![]), Vec::<u64>::new());
    assert_eq!(unique(&vec![5, 5, 5]), vec![5]);
}

#[test]
fn unique_by_hands_out_new_keys() {
    let mut it = UniqueBy::new(vec![7, 7, 8, 7, 9, 8]);
    assert_eq!(it.size_hint(), (1, Some(6)));
    assert_eq!(it.next(), Some(7));
    assert_eq!(it.size_hint(), (0, Some(5)));
    assert_eq!(it.next(), Some(8));
    assert_eq!(it.count(), 1);
}

#[test]
fn unique_by_runs_dry() {
    let mut it = UniqueBy::new(vec![1, 1]);
    assert_eq!(it.next(), Some(1));
    assert_eq!(it.next(), None);
    assert_eq!(it.next(), None);
    assert_eq!(it.size_hint(), (0, Some(0)));
}

#[test]
fn count_new_keys_counts_distinct() {
    assert_eq!(count_new_keys(SeenKeys::new(), &vec![4, 2, 4, 4, 9]), 3);
    assert_eq!(count_new_keys(SeenKeys::new(), &vec![]), 0);
    let it = UniqueBy::new(vec![1, 2, 1, 3]);
    assert_eq!(it.count(), 3);
}
