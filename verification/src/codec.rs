//! The record format of the log.
//!
//! A record is `key ++ separator ++ value ++ terminator`. A record whose value
//! segment begins with the delete marker is a tombstone: it says that the key
//! is gone. Nothing is escaped and nothing carries a length.

use vstd::prelude::*;
use vstd::slice::slice_subrange;
use vstd::slice::slice_to_vec;
use crate::config::Config;
use crate::config::Framing;
use crate::error::StoreError;
use crate::pattern::find;
use crate::pattern::find_in;
use crate::pattern::first_match;
use crate::pattern::lemma_first_match_found;
use crate::pattern::occurs;

verus! {

/// The value segment of a record: the value, behind the delete marker in a
/// tombstone.
pub open spec fn value_segment(f: Framing, value: Seq<u8>, tombstone: bool) -> Seq<u8> {
    (if tombstone {
        seq![f.delete_marker]
    } else {
        Seq::<u8>::empty()
    }) + value
}

/// The bytes of one record: key, separator, value segment, terminator.
pub open spec fn record_bytes(
    f: Framing,
    key: Seq<u8>,
    value: Seq<u8>,
    tombstone: bool,
) -> Seq<u8> {
    key + f.separator + value_segment(f, value, tombstone) + f.terminator
}

/// What one fragment says, with positions counted from the fragment's first byte.
pub struct RecordView {
    pub key: Seq<u8>,
    pub tombstone: bool,
    pub value_offset: int,
    pub value_length: int,
}

/// What one fragment of the log decodes to: a record, or nothing where the
/// fragment holds no separator; and the bytes it takes up, terminator included.
pub struct Piece {
    pub record: Option<RecordView>,
    pub consumed: int,
}

/// Reads one fragment, the bytes between two terminators. The key ends where
/// the separator first stands. The value is what follows the separator, less
/// the delete marker where that comes first.
pub open spec fn decode_fragment(f: Framing, fragment: Seq<u8>) -> Option<RecordView> {
    match first_match(fragment, f.separator) {
        None => None,
        Some(at) => {
            let start = at + f.separator.len();
            let tombstone = start < fragment.len() && fragment[start] == f.delete_marker;
            let value_offset = if tombstone {
                start + 1
            } else {
                start
            };
            Some(
                RecordView {
                    key: fragment.take(at),
                    tombstone,
                    value_offset,
                    value_length: fragment.len() - value_offset,
                },
            )
        },
    }
}

/// The pieces of a buffer, in the order in which they lie in it. Each closed
/// fragment is one piece. The bytes behind the last terminator are no piece:
/// they wait for their terminator.
pub open spec fn pieces(f: Framing, buffer: Seq<u8>) -> Seq<Piece>
    decreases buffer.len(),
    via pieces_decreases
{
    if f.terminator.len() == 0 {
        Seq::<Piece>::empty()
    } else {
        match first_match(buffer, f.terminator) {
            None => Seq::<Piece>::empty(),
            Some(at) => {
                let consumed = at + f.terminator.len();
                seq![Piece { record: decode_fragment(f, buffer.take(at)), consumed }] + pieces(
                    f,
                    buffer.skip(consumed),
                )
            },
        }
    }
}

#[via_fn]
proof fn pieces_decreases(f: Framing, buffer: Seq<u8>) {
    lemma_first_match_found(buffer, f.terminator);
}

/// How many bytes the pieces take up together.
pub open spec fn consumed_by(ps: Seq<Piece>) -> int
    decreases ps.len(),
{
    if ps.len() == 0 {
        0
    } else {
        ps[0].consumed + consumed_by(ps.skip(1))
    }
}

/// A decoded record. Offsets count from the record's first byte.
#[derive(Debug)]
pub struct DecodedRecord {
    pub key: Vec<u8>,
    /// The record deletes the key.
    pub tombstone: bool,
    /// Where the value begins, behind the separator and, in a tombstone, the marker.
    pub value_offset: u64,
    pub value_length: u64,
    /// The length of the whole record, terminator included.
    pub consumed: u64,
}

/// A fragment without a separator.
#[derive(Clone, Copy, Debug, PartialEq, Eq, Structural)]
pub struct MalformedRecord {
    /// The length of the fragment and its terminator.
    pub consumed: u64,
}

/// The piece that a decoded item stands for.
pub open spec fn piece_of(item: Result<DecodedRecord, MalformedRecord>) -> Piece {
    match item {
        Ok(record) => Piece {
            record: Some(
                RecordView {
                    key: record.key@,
                    tombstone: record.tombstone,
                    value_offset: record.value_offset as int,
                    value_length: record.value_length as int,
                },
            ),
            consumed: record.consumed as int,
        },
        Err(malformed) => Piece { record: None, consumed: malformed.consumed as int },
    }
}

/// The pieces that a list of decoded items stands for.
pub open spec fn pieces_of(items: Seq<Result<DecodedRecord, MalformedRecord>>) -> Seq<Piece> {
    Seq::new(items.len(), |i: int| piece_of(items[i]))
}

/// Builds the bytes of a record. A key that holds the separator is refused,
/// since its record would be read back under another key.
pub fn encode(config: &Config, key: &[u8], value: &[u8], tombstone: bool) -> (encoded: Result<
    Vec<u8>,
    StoreError,
>)
    ensures
        match encoded {
            Ok(bytes) => !occurs(key@, config.framing().separator) && bytes@ == record_bytes(
                config.framing(),
                key@,
                value@,
                tombstone,
            ),
            Err(error) => error == StoreError::KeyContainsSeparator && occurs(
                key@,
                config.framing().separator,
            ),
        },
{
    let hit = find(key, config.key_value_separator.as_slice());
    proof {
        lemma_first_match_found(key@, config.framing().separator);
    }
    if hit.is_some() {
        return Err(StoreError::KeyContainsSeparator);
    }
    let mut bytes: Vec<u8> = Vec::new();
    append_bytes(&mut bytes, key);
    append_bytes(&mut bytes, config.key_value_separator.as_slice());
    if tombstone {
        bytes.push(config.delete_marker);
    }
    append_bytes(&mut bytes, value);
    append_bytes(&mut bytes, config.end_of_record.as_slice());
    assert(bytes@ =~= record_bytes(config.framing(), key@, value@, tombstone));
    Ok(bytes)
}

/// Copies `more` to the end of `bytes`.
pub fn append_bytes(bytes: &mut Vec<u8>, more: &[u8])
    ensures
        final(bytes)@ == old(bytes)@ + more@,
{
    let mut i: usize = 0;
    while i < more.len()
        invariant
            i <= more.len(),
            bytes@ == old(bytes)@ + more@.take(i as int),
        decreases more.len() - i,
    {
        bytes.push(more[i]);
        i += 1;
        assert(bytes@ =~= old(bytes)@ + more@.take(i as int));
    }
    assert(more@.take(more.len() as int) =~= more@);
}

/// Reads the fragment `buffer[start..end]`, which with its terminator takes up
/// `consumed` bytes.
fn decode_one(config: &Config, buffer: &[u8], start: usize, end: usize, consumed: u64) -> (item:
    Result<DecodedRecord, MalformedRecord>)
    requires
        start <= end <= buffer.len(),
    ensures
        piece_of(item) == (Piece {
            record: decode_fragment(config.framing(), buffer@.subrange(start as int, end as int)),
            consumed: consumed as int,
        }),
{
    let fragment = slice_subrange(buffer, start, end);
    let separator = config.key_value_separator.as_slice();
    proof {
        lemma_first_match_found(fragment@, separator@);
    }
    match find(fragment, separator) {
        None => Err(MalformedRecord { consumed }),
        Some(at) => {
            let value_start: usize = at + separator.len();
            let tombstone = value_start < fragment.len() && fragment[value_start]
                == config.delete_marker;
            let value_offset: usize = if tombstone {
                value_start + 1
            } else {
                value_start
            };
            let key = slice_to_vec(slice_subrange(fragment, 0, at));
            assert(key@ =~= fragment@.take(at as int));
            Ok(
                DecodedRecord {
                    key,
                    tombstone,
                    value_offset: value_offset as u64,
                    value_length: (fragment.len() - value_offset) as u64,
                    consumed,
                },
            )
        },
    }
}

/// Decodes every closed fragment of `buffer`, in order. A fragment without a
/// separator fails alone, as an `Err` in its place; the others are not touched
/// by it. The bytes behind the last terminator are left out.
pub fn decode_all(config: &Config, buffer: &[u8]) -> (items: Vec<
    Result<DecodedRecord, MalformedRecord>,
>)
    ensures
        pieces_of(items@) == pieces(config.framing(), buffer@),
{
    let ghost f = config.framing();
    let mut items: Vec<Result<DecodedRecord, MalformedRecord>> = Vec::new();
    let terminator = config.end_of_record.as_slice();
    if terminator.len() == 0 {
        assert(pieces_of(items@) =~= pieces(f, buffer@));
        return items;
    }
    let mut pos: usize = 0;
    assert(buffer@.skip(0) =~= buffer@);
    assert(pieces_of(items@) + pieces(f, buffer@) =~= pieces(f, buffer@));
    loop
        invariant
            pos <= buffer.len(),
            f == config.framing(),
            terminator@ == f.terminator,
            terminator.len() > 0,
            pieces(f, buffer@) == pieces_of(items@) + pieces(f, buffer@.skip(pos as int)),
        decreases buffer.len() - pos,
    {
        let ghost rest = buffer@.skip(pos as int);
        assert(buffer@.subrange(pos as int, buffer.len() as int) =~= rest);
        proof {
            lemma_first_match_found(rest, f.terminator);
        }
        match find_in(buffer, pos, buffer.len(), terminator) {
            None => {
                assert(pieces(f, rest) =~= Seq::<Piece>::empty());
                assert(pieces_of(items@) + Seq::<Piece>::empty() =~= pieces_of(items@));
                return items;
            },
            Some(at) => {
                let end: usize = pos + at;
                let consumed: usize = at + terminator.len();
                let item = decode_one(config, buffer, pos, end, consumed as u64);
                let ghost before = pieces_of(items@);
                items.push(item);
                proof {
                    assert(buffer@.subrange(pos as int, end as int) =~= rest.take(at as int));
                    assert(rest.skip(consumed as int) =~= buffer@.skip(pos + consumed));
                    assert(pieces_of(items@) =~= before + seq![piece_of(item)]);
                    assert(pieces(f, rest) == seq![piece_of(item)] + pieces(
                        f,
                        rest.skip(consumed as int),
                    ));
                    assert(before + (seq![piece_of(item)] + pieces(f, rest.skip(consumed as int)))
                        =~= (before + seq![piece_of(item)]) + pieces(
                        f,
                        rest.skip(consumed as int),
                    ));
                }
                pos = pos + consumed;
            },
        }
    }
}

} // verus!
