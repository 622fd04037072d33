use logkv::codec::decode_all;
use logkv::codec::encode;
use logkv::codec::MalformedRecord;
use logkv::Config;
use logkv::StoreError;

fn framing(separator: &[u8], terminator: &[u8], delete_marker: u8) -> Config {
    Config {
        database_path: String::from("db.log"),
        key_value_separator: separator.to_vec(),
        end_of_record: terminator.to_vec(),
        delete_marker,
    }
}

fn plain() -> Config {
    framing(b",", b"\n", b'~')
}

#[test]
fn encode_joins_key_separator_value_terminator() {
    assert_eq!(encode(&plain(), b"name", b"ada", false), Ok(b"name,ada\n".to_vec()));
}

#[test]
fn encode_puts_the_marker_before_the_value_of_a_tombstone() {
    assert_eq!(encode(&plain(), b"name", b"", true), Ok(b"name,~\n".to_vec()));
    assert_eq!(encode(&plain(), b"name", b"x", true), Ok(b"name,~x\n".to_vec()));
}

#[test]
fn encode_accepts_empty_key_and_empty_value() {
    assert_eq!(encode(&plain(), b"", b"", false), Ok(b",\n".to_vec()));
    assert_eq!(encode(&plain(), b"k", b"", false), Ok(b"k,\n".to_vec()));
}

#[test]
fn encode_refuses_a_key_that_holds_the_separator() {
    assert_eq!(encode(&plain(), b"a,b", b"v", false), Err(StoreError::KeyContainsSeparator));
    assert_eq!(encode(&plain(), b",", b"v", true), Err(StoreError::KeyContainsSeparator));
}

#[test]
fn encode_lets_the_separator_stand_in_the_value() {
    assert_eq!(encode(&plain(), b"k", b"a,b", false), Ok(b"k,a,b\n".to_vec()));
}

#[test]
fn encode_with_long_tokens() {
    let config = framing(b"=>", b"\r\n", b'#');
    assert_eq!(encode(&config, b"k", b"v", false), Ok(b"k=>v\r\n".to_vec()));
    assert_eq!(encode(&config, b"k=", b"v", false), Ok(b"k==>v\r\n".to_vec()));
    assert_eq!(encode(&config, b"a=>b", b"v", false), Err(StoreError::KeyContainsSeparator));
}

#[test]
fn decode_all_gives_each_record_with_its_offsets() {
    let items = decode_all(&plain(), b"name,ada\nk,\n");
    assert_eq!(items.len(), 2);
    let first = items[0].as_ref().unwrap();
    assert_eq!(first.key, b"name".to_vec());
    assert!(!first.tombstone);
    assert_eq!(first.value_offset, 5);
    assert_eq!(first.value_length, 3);
    assert_eq!(first.consumed, 9);
    let second = items[1].as_ref().unwrap();
    assert_eq!(second.key, b"k".to_vec());
    assert!(!second.tombstone);
    assert_eq!(second.value_offset, 2);
    assert_eq!(second.value_length, 0);
    assert_eq!(second.consumed, 3);
}

#[test]
fn decode_all_tells_a_tombstone_by_its_marker() {
    let items = decode_all(&plain(), b"name,~\nname,~old\n");
    assert_eq!(items.len(), 2);
    let first = items[0].as_ref().unwrap();
    assert!(first.tombstone);
    assert_eq!(first.key, b"name".to_vec());
    assert_eq!(first.value_offset, 6);
    assert_eq!(first.value_length, 0);
    assert_eq!(first.consumed, 7);
    let second = items[1].as_ref().unwrap();
    assert!(second.tombstone);
    assert_eq!(second.value_offset, 6);
    assert_eq!(second.value_length, 3);
    assert_eq!(second.consumed, 10);
}

#[test]
fn decode_all_cuts_the_key_at_the_first_separator() {
    let items = decode_all(&plain(), b"a,b,c\n");
    assert_eq!(items.len(), 1);
    let record = items[0].as_ref().unwrap();
    assert_eq!(record.key, b"a".to_vec());
    assert_eq!(record.value_offset, 2);
    assert_eq!(record.value_length, 3);
}

#[test]
fn decode_all_fails_one_fragment_and_goes_on() {
    let items = decode_all(&plain(), b"a,1\nbroken\nb,2\n");
    assert_eq!(items.len(), 3);
    assert_eq!(items[0].as_ref().unwrap().key, b"a".to_vec());
    assert_eq!(items[1].as_ref().err(), Some(&MalformedRecord { consumed: 7 }));
    let third = items[2].as_ref().unwrap();
    assert_eq!(third.key, b"b".to_vec());
    assert_eq!(third.value_offset, 2);
    assert_eq!(third.value_length, 1);
    assert_eq!(third.consumed, 4);
}

#[test]
fn decode_all_counts_an_empty_fragment_between_terminators() {
    let items = decode_all(&plain(), b"a,1\n\nb,2\n");
    assert_eq!(items.len(), 3);
    assert_eq!(items[1].as_ref().err(), Some(&MalformedRecord { consumed: 1 }));
}

#[test]
fn decode_all_drops_what_follows_the_last_terminator() {
    assert_eq!(decode_all(&plain(), b"a,1\n").len(), 1);
    assert_eq!(decode_all(&plain(), b"a,1\nb,2").len(), 1);
    assert_eq!(decode_all(&plain(), b"a,1").len(), 0);
    assert_eq!(decode_all(&plain(), b"").len(), 0);
}

#[test]
fn decode_all_with_long_tokens() {
    let config = framing(b"=>", b"\r\n", b'#');
    let items = decode_all(&config, b"k=>v\r\nq=>#\r\nhalf\r");
    assert_eq!(items.len(), 2);
    let first = items[0].as_ref().unwrap();
    assert_eq!(first.key, b"k".to_vec());
    assert_eq!(first.value_offset, 3);
    assert_eq!(first.value_length, 1);
    assert_eq!(first.consumed, 6);
    let second = items[1].as_ref().unwrap();
    assert!(second.tombstone);
    assert_eq!(second.key, b"q".to_vec());
    assert_eq!(second.value_offset, 4);
    assert_eq!(second.value_length, 0);
    assert_eq!(second.consumed, 6);
}

#[test]
fn decode_all_without_a_terminator_token_finds_nothing() {
    let config = framing(b",", b"", b'~');
    assert_eq!(decode_all(&config, b"a,1\nb,2\n").len(), 0);
}

#[test]
fn decode_all_reads_back_what_encode_wrote() {
    let config = plain();
    let mut buffer = encode(&config, b"alpha", b"one", false).unwrap();
    buffer.extend(encode(&config, b"beta", b"", true).unwrap());
    let items = decode_all(&config, &buffer);
    assert_eq!(items.len(), 2);
    let first = items[0].as_ref().unwrap();
    assert_eq!(first.key, b"alpha".to_vec());
    assert_eq!(&buffer[first.value_offset as usize..][..first.value_length as usize], b"one");
    let second = items[1].as_ref().unwrap();
    assert_eq!(second.key, b"beta".to_vec());
    assert!(second.tombstone);
    assert_eq!(first.consumed + second.consumed, buffer.len() as u64);
}
