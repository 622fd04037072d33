use logkv::index::Index;
use logkv::indexer::reindex;
use logkv::AppendLog;
use logkv::Config;
use logkv::IndexEntry;

fn plain() -> Config {
    Config {
        database_path: String::from("db.log"),
        key_value_separator: b",".to_vec(),
        end_of_record: b"\n".to_vec(),
        delete_marker: b'~',
    }
}

fn entry(value_offset: u64, value_length: u64) -> IndexEntry {
    IndexEntry { value_offset, value_length }
}

fn pass(bytes: &[u8], index: &mut Index, malformed: &mut Vec<u64>, cursor: u64) -> u64 {
    let log = AppendLog::from_bytes(bytes.to_vec());
    reindex(&plain(), &log, index, malformed, cursor)
}

#[test]
fn reindex_gives_absolute_offsets_and_the_new_cursor() {
    let mut index = Index::new();
    let mut malformed = Vec::new();
    let cursor = pass(b"name,ada\nk,vv\n", &mut index, &mut malformed, 0);
    assert_eq!(cursor, 14);
    assert_eq!(index.get(b"name"), Some(entry(5, 3)));
    assert_eq!(index.get(b"k"), Some(entry(11, 2)));
    assert_eq!(index.len(), 2);
    assert!(malformed.is_empty());
}

#[test]
fn reindex_starts_at_the_cursor() {
    let mut index = Index::new();
    let mut malformed = Vec::new();
    let cursor = pass(b"name,ada\nk,vv\n", &mut index, &mut malformed, 9);
    assert_eq!(cursor, 14);
    assert_eq!(index.get(b"name"), None);
    assert_eq!(index.get(b"k"), Some(entry(11, 2)));
}

#[test]
fn a_later_record_overrides_an_earlier_one() {
    let mut index = Index::new();
    let mut malformed = Vec::new();
    let cursor = pass(b"k,a\nk,bb\n", &mut index, &mut malformed, 0);
    assert_eq!(cursor, 9);
    assert_eq!(index.get(b"k"), Some(entry(6, 2)));
    assert_eq!(index.len(), 1);
}

#[test]
fn a_tombstone_takes_the_key_out() {
    let mut index = Index::new();
    let mut malformed = Vec::new();
    let cursor = pass(b"k,a\nq,b\nk,~\n", &mut index, &mut malformed, 0);
    assert_eq!(cursor, 12);
    assert_eq!(index.get(b"k"), None);
    assert_eq!(index.get(b"q"), Some(entry(6, 1)));
    assert_eq!(index.len(), 1);
}

#[test]
fn a_record_behind_a_tombstone_brings_the_key_back() {
    let mut index = Index::new();
    let mut malformed = Vec::new();
    pass(b"k,a\nk,~\nk,yes\n", &mut index, &mut malformed, 0);
    assert_eq!(index.get(b"k"), Some(entry(10, 3)));
}

#[test]
fn a_fragment_without_separator_is_noted_and_skipped() {
    let mut index = Index::new();
    let mut malformed = Vec::new();
    let cursor = pass(b"a,1\nbroken\n\nb,2\n", &mut index, &mut malformed, 0);
    assert_eq!(cursor, 16);
    assert_eq!(malformed, vec![4, 11]);
    assert_eq!(index.get(b"a"), Some(entry(2, 1)));
    assert_eq!(index.get(b"b"), Some(entry(14, 1)));
}

#[test]
fn the_cursor_stops_behind_the_last_terminator() {
    let mut index = Index::new();
    let mut malformed = Vec::new();
    let cursor = pass(b"a,1\nb,2", &mut index, &mut malformed, 0);
    assert_eq!(cursor, 4);
    assert_eq!(index.get(b"b"), None);
    let cursor = pass(b"a,1\nb,22\n", &mut index, &mut malformed, cursor);
    assert_eq!(cursor, 9);
    assert_eq!(index.get(b"b"), Some(entry(6, 2)));
}

#[test]
fn a_cursor_behind_the_end_changes_nothing() {
    let mut index = Index::new();
    let mut malformed = Vec::new();
    index.insert(b"x".to_vec(), entry(1, 1));
    assert_eq!(pass(b"a,1\n", &mut index, &mut malformed, 4), 4);
    assert_eq!(pass(b"a,1\n", &mut index, &mut malformed, 50), 50);
    assert_eq!(index.len(), 1);
    assert_eq!(index.get(b"x"), Some(entry(1, 1)));
    assert!(malformed.is_empty());
}

#[test]
fn a_second_pass_without_writes_changes_nothing() {
    let bytes = b"a,1\nbad\nb,2\na,~\nc,3\ntail";
    let mut index = Index::new();
    let mut malformed = Vec::new();
    let first = pass(bytes, &mut index, &mut malformed, 0);
    let mut keys = index.keys();
    keys.sort();
    let entries: Vec<Option<IndexEntry>> = keys.iter().map(|k| index.get(k)).collect();
    let second = pass(bytes, &mut index, &mut malformed, first);
    assert_eq!(second, first);
    assert_eq!(first, 20);
    let mut keys_after = index.keys();
    keys_after.sort();
    assert_eq!(keys_after, keys);
    let entries_after: Vec<Option<IndexEntry>> = keys.iter().map(|k| index.get(k)).collect();
    assert_eq!(entries_after, entries);
    assert_eq!(malformed, vec![4]);
}

#[test]
fn two_passes_split_at_a_terminator_give_what_one_pass_gives() {
    let bytes = b"a,1\nb,2\na,333\nb,~\nc,\n";
    let mut whole_index = Index::new();
    let mut whole_malformed = Vec::new();
    let whole_cursor = pass(bytes, &mut whole_index, &mut whole_malformed, 0);
    for split in [0usize, 4, 8, 14, 18, 21] {
        let mut index = Index::new();
        let mut malformed = Vec::new();
        let middle = pass(&bytes[..split], &mut index, &mut malformed, 0);
        assert_eq!(middle, split as u64);
        let cursor = pass(bytes, &mut index, &mut malformed, middle);
        assert_eq!(cursor, whole_cursor);
        assert_eq!(index.len(), whole_index.len());
        for key in whole_index.keys() {
            assert_eq!(index.get(&key), whole_index.get(&key));
        }
    }
    assert_eq!(whole_cursor, 21);
    assert_eq!(whole_index.get(b"a"), Some(entry(10, 3)));
    assert_eq!(whole_index.get(b"b"), None);
    assert_eq!(whole_index.get(b"c"), Some(entry(20, 0)));
}

#[test]
fn two_passes_split_anywhere_give_what_one_pass_gives() {
    let bytes = b"a,1\nb,2\na,333\nb,~\nc,\n";
    let mut whole_index = Index::new();
    let mut whole_malformed = Vec::new();
    let whole_cursor = pass(bytes, &mut whole_index, &mut whole_malformed, 0);
    for split in 0..=bytes.len() {
        let mut index = Index::new();
        let mut malformed = Vec::new();
        let middle = pass(&bytes[..split], &mut index, &mut malformed, 0);
        assert!(middle <= split as u64);
        let cursor = pass(bytes, &mut index, &mut malformed, middle);
        assert_eq!(cursor, whole_cursor);
        assert_eq!(index.len(), whole_index.len());
        for key in whole_index.keys() {
            assert_eq!(index.get(&key), whole_index.get(&key));
        }
    }
}
