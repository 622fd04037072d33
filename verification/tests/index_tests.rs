use logkv::index::same_bytes;
use logkv::index::slice_to_owned;
use logkv::index::Index;
use logkv::IndexEntry;

fn entry(value_offset: u64, value_length: u64) -> IndexEntry {
    IndexEntry { value_offset, value_length }
}

#[test]
fn a_new_index_is_empty() {
    let index = Index::new();
    assert_eq!(index.len(), 0);
    assert_eq!(index.get(b"k"), None);
    assert!(index.keys().is_empty());
}

#[test]
fn insert_then_get_gives_the_entry() {
    let mut index = Index::new();
    index.insert(b"k".to_vec(), entry(2, 5));
    assert_eq!(index.get(b"k"), Some(entry(2, 5)));
    assert_eq!(index.get(b"other"), None);
    assert_eq!(index.len(), 1);
}

#[test]
fn insert_under_a_present_key_replaces_the_entry() {
    let mut index = Index::new();
    index.insert(b"k".to_vec(), entry(2, 5));
    index.insert(b"k".to_vec(), entry(40, 1));
    assert_eq!(index.get(b"k"), Some(entry(40, 1)));
    assert_eq!(index.len(), 1);
    assert_eq!(index.keys(), vec![b"k".to_vec()]);
}

#[test]
fn remove_takes_the_key_out_and_keeps_the_others() {
    let mut index = Index::new();
    index.insert(b"a".to_vec(), entry(1, 1));
    index.insert(b"b".to_vec(), entry(2, 2));
    index.insert(b"c".to_vec(), entry(3, 3));
    index.remove(b"b");
    assert_eq!(index.get(b"b"), None);
    assert_eq!(index.get(b"a"), Some(entry(1, 1)));
    assert_eq!(index.get(b"c"), Some(entry(3, 3)));
    assert_eq!(index.len(), 2);
}

#[test]
fn remove_of_an_absent_key_changes_nothing() {
    let mut index = Index::new();
    index.insert(b"a".to_vec(), entry(1, 1));
    index.remove(b"zzz");
    assert_eq!(index.len(), 1);
    assert_eq!(index.get(b"a"), Some(entry(1, 1)));
}

#[test]
fn keys_holds_each_key_once() {
    let mut index = Index::new();
    index.insert(b"a".to_vec(), entry(1, 1));
    index.insert(b"".to_vec(), entry(2, 2));
    index.insert(b"a".to_vec(), entry(3, 3));
    index.insert(b"ab".to_vec(), entry(4, 4));
    let mut keys = index.keys();
    keys.sort();
    assert_eq!(keys, vec![b"".to_vec(), b"a".to_vec(), b"ab".to_vec()]);
}

#[test]
fn clear_takes_every_key_out() {
    let mut index = Index::new();
    index.insert(b"a".to_vec(), entry(1, 1));
    index.insert(b"b".to_vec(), entry(2, 2));
    index.clear();
    assert_eq!(index.len(), 0);
    assert_eq!(index.get(b"a"), None);
    index.insert(b"a".to_vec(), entry(9, 9));
    assert_eq!(index.get(b"a"), Some(entry(9, 9)));
}

#[test]
fn same_bytes_compares_length_and_content() {
    assert!(same_bytes(b"abc", b"abc"));
    assert!(same_bytes(b"", b""));
    assert!(!same_bytes(b"abc", b"abd"));
    assert!(!same_bytes(b"abc", b"ab"));
    assert!(!same_bytes(b"", b"a"));
}

#[test]
fn slice_to_owned_copies() {
    assert_eq!(slice_to_owned(b"abc"), b"abc".to_vec());
    assert_eq!(slice_to_owned(b""), Vec::<u8>::new());
}
