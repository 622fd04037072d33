use logkv::compactor::compact;
use logkv::AppendLog;
use logkv::Config;
use logkv::KeyValueStore;
use logkv::StoreError;

fn config() -> Config {
    Config {
        database_path: String::from("/tmp/db.log"),
        key_value_separator: b",".to_vec(),
        end_of_record: b"\n".to_vec(),
        delete_marker: b'~',
    }
}

fn open() -> KeyValueStore {
    let mut store = KeyValueStore::new();
    store.initialize(config()).unwrap();
    store
}

fn reopen(log: AppendLog) -> KeyValueStore {
    let mut store = open();
    store.load(log.as_bytes());
    store
}

#[test]
fn compaction_fidelity() {
    let mut store = open();
    store.set(b"a", b"1").unwrap();
    store.set(b"b", b"2").unwrap();
    store.set(b"a", b"three").unwrap();
    store.set(b"c", b"").unwrap();
    store.set(b"d", b"4").unwrap();
    store.delete(b"b").unwrap();
    store.delete(b"never").unwrap();
    let destination = store.compact().unwrap();
    let mut copy = reopen(destination);
    for key in [&b"a"[..], b"b", b"c", b"d", b"never", b"other"] {
        assert_eq!(copy.get(key), store.get(key));
    }
    assert_eq!(copy.get(b"a"), Ok(Some(b"three".to_vec())));
    assert_eq!(copy.get(b"b"), Ok(None));
    assert_eq!(copy.get(b"c"), Ok(Some(Vec::new())));
    assert_eq!(copy.index_size(), 3);
    let mut keys = copy.index_keys();
    keys.sort();
    assert_eq!(keys, vec![b"a".to_vec(), b"c".to_vec(), b"d".to_vec()]);
}

#[test]
fn compaction_writes_one_record_per_live_key() {
    let mut store = open();
    store.set(b"a", b"1").unwrap();
    store.set(b"b", b"2").unwrap();
    store.set(b"a", b"three").unwrap();
    store.delete(b"b").unwrap();
    store.set(b"c", b"4").unwrap();
    let destination = store.compact().unwrap();
    assert_eq!(destination.as_bytes(), b"a,three\nc,4\n");
    assert_eq!(store.log().as_bytes(), b"a,1\nb,2\na,three\nb,~\nc,4\n");
}

#[test]
fn compaction_leaves_the_store_on_its_own_log() {
    let mut store = open();
    store.set(b"a", b"1").unwrap();
    store.set(b"a", b"2").unwrap();
    let before = store.log().length();
    let destination = store.compact().unwrap();
    assert_eq!(store.log().length(), before);
    assert_eq!(store.bytes_indexed(), before);
    assert_eq!(destination.length(), 4);
    assert_eq!(store.get(b"a"), Ok(Some(b"2".to_vec())));
}

#[test]
fn compaction_of_an_empty_log_is_empty() {
    let mut store = open();
    assert_eq!(store.compact().unwrap().length(), 0);
    store.set(b"a", b"1").unwrap();
    store.delete(b"a").unwrap();
    assert_eq!(store.compact().unwrap().length(), 0);
}

#[test]
fn compaction_drops_malformed_fragments_and_open_tails() {
    let source = AppendLog::from_bytes(b"a,1\nbroken\nb,2\nhalf,wri".to_vec());
    let destination = compact(&config(), &source).unwrap();
    assert_eq!(destination.as_bytes(), b"a,1\nb,2\n");
    assert_eq!(source.as_bytes(), b"a,1\nbroken\nb,2\nhalf,wri");
}

#[test]
fn compaction_twice_gives_the_same_log() {
    let source = AppendLog::from_bytes(b"a,1\nb,2\na,~\nc,3\nb,22\n".to_vec());
    let once = compact(&config(), &source).unwrap();
    let twice = compact(&config(), &once).unwrap();
    assert_eq!(once.as_bytes(), b"b,22\nc,3\n");
    assert_eq!(twice.as_bytes(), once.as_bytes());
}

#[test]
fn compaction_without_a_token_is_refused() {
    let source = AppendLog::from_bytes(b"a,1\n".to_vec());
    let mut no_separator = config();
    no_separator.key_value_separator = Vec::new();
    assert_eq!(compact(&no_separator, &source).err(), Some(StoreError::MissingField));
    let mut no_terminator = config();
    no_terminator.end_of_record = Vec::new();
    assert_eq!(compact(&no_terminator, &source).err(), Some(StoreError::MissingField));
}
