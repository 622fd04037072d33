//! What a log means: the index that its bytes give, and the value that it
//! holds for a key. The contracts of the store and the laws speak of these.

use vstd::prelude::*;
use crate::codec::consumed_by;
use crate::codec::decode_fragment;
use crate::codec::Piece;
use crate::codec::pieces;
use crate::codec::record_bytes;
use crate::codec::RecordView;
use crate::codec::value_segment;
use crate::config::Framing;
use crate::index::Extent;
use crate::indexer::apply_piece;
use crate::indexer::apply_pieces;
use crate::indexer::empty_state;
use crate::indexer::IndexState;
use crate::indexer::lemma_pieces_bounded;
use crate::indexer::piece_bounded;
use crate::indexer::scan;
use crate::pattern::first_match;
use crate::pattern::is_first_match;
use crate::pattern::lemma_first_match_found;
use crate::pattern::lemma_first_match_is;
use crate::pattern::lemma_match_in_prefix;
use crate::pattern::lemma_match_in_suffix;
use crate::pattern::matches_at;
use crate::pattern::occurs;

verus! {

/// The number of bytes that a pass over `buffer` folds in: the length of its
/// closed fragments, terminators included.
pub open spec fn framed_length(f: Framing, buffer: Seq<u8>) -> int {
    consumed_by(pieces(f, buffer))
}

/// The buffer ends where a fragment ends: no bytes wait for a terminator.
pub open spec fn whole(f: Framing, buffer: Seq<u8>) -> bool {
    framed_length(f, buffer) == buffer.len()
}

/// `at` is an offset at which a fragment of the buffer ends, or zero.
pub open spec fn aligned(f: Framing, buffer: Seq<u8>, at: int) -> bool {
    0 <= at <= buffer.len() && whole(f, buffer.take(at))
}

/// The state that one pass over the whole log arrives at.
pub open spec fn index_of(f: Framing, log: Seq<u8>) -> IndexState {
    scan(f, empty_state(), log)
}

/// The bytes of the log that an extent names.
pub open spec fn bytes_at(log: Seq<u8>, extent: Extent) -> Seq<u8> {
    log.subrange(extent.offset, extent.offset + extent.length)
}

/// The value that the log holds for `key`: the value of the last record for
/// it, unless that is a tombstone or there is none.
pub open spec fn stored_value(f: Framing, log: Seq<u8>, key: Seq<u8>) -> Option<Seq<u8>> {
    let entries = index_of(f, log).entries;
    if entries.contains_key(key) {
        Some(bytes_at(log, entries[key]))
    } else {
        None
    }
}

/// The record of `key` and `value` is read back as it was written: the
/// separator first stands right behind the key, the terminator first stands at
/// the record's end, and a value that is not deleted does not begin with the
/// delete marker.
pub open spec fn reads_back(f: Framing, key: Seq<u8>, value: Seq<u8>, tombstone: bool) -> bool {
    let segment = value_segment(f, value, tombstone);
    &&& f.valid()
    &&& is_first_match(key + f.separator + segment, f.separator, key.len() as int)
    &&& is_first_match(
        key + f.separator + segment + f.terminator,
        f.terminator,
        (key.len() + f.separator.len() + segment.len()) as int,
    )
    &&& !tombstone && value.len() > 0 ==> value[0] != f.delete_marker
}

/// The key of a record that reads back does not hold the separator, so the
/// record is accepted for writing.
pub proof fn lemma_reads_back_key(f: Framing, key: Seq<u8>, value: Seq<u8>, tombstone: bool)
    requires
        reads_back(f, key, value, tombstone),
    ensures
        !occurs(key, f.separator),
{
    let written = key + f.separator + value_segment(f, value, tombstone);
    assert(written.take(key.len() as int) =~= key);
    assert forall|j: int| !matches_at(key, f.separator, j) by {
        if matches_at(key, f.separator, j) {
            lemma_match_in_prefix(written, f.separator, key.len() as int, j);
        }
    }
}

/// Every entry lies inside the bytes that were folded in.
pub open spec fn state_bounded(state: IndexState) -> bool {
    &&& 0 <= state.cursor
    &&& forall|key: Seq<u8>| #[trigger]
        state.entries.contains_key(key) ==> {
            &&& 0 <= state.entries[key].offset
            &&& 0 <= state.entries[key].length
            &&& state.entries[key].offset + state.entries[key].length <= state.cursor
        }
}

/// The bytes taken up by two runs of pieces add up.
pub proof fn lemma_consumed_concat(p: Seq<Piece>, q: Seq<Piece>)
    ensures
        consumed_by(p + q) == consumed_by(p) + consumed_by(q),
    decreases p.len(),
{
    if p.len() == 0 {
        assert(p + q =~= q);
    } else {
        assert((p + q)[0] == p[0]);
        assert((p + q).skip(1) =~= p.skip(1) + q);
        lemma_consumed_concat(p.skip(1), q);
    }
}

/// Applying two runs of pieces one after the other is applying them joined.
pub proof fn lemma_apply_concat(state: IndexState, p: Seq<Piece>, q: Seq<Piece>)
    ensures
        apply_pieces(state, p + q) == apply_pieces(apply_pieces(state, p), q),
    decreases p.len(),
{
    if p.len() == 0 {
        assert(p + q =~= q);
    } else {
        assert((p + q)[0] == p[0]);
        assert((p + q).skip(1) =~= p.skip(1) + q);
        lemma_apply_concat(apply_piece(state, p[0]), p.skip(1), q);
    }
}

/// The cursor moves by what the pieces take up.
pub proof fn lemma_apply_cursor(state: IndexState, ps: Seq<Piece>)
    ensures
        apply_pieces(state, ps).cursor == state.cursor + consumed_by(ps),
    decreases ps.len(),
{
    if ps.len() > 0 {
        lemma_apply_cursor(apply_piece(state, ps[0]), ps.skip(1));
    }
}

/// Bounded pieces keep a bounded state bounded.
pub proof fn lemma_apply_bounded(state: IndexState, ps: Seq<Piece>)
    requires
        state_bounded(state),
        forall|i: int| 0 <= i < ps.len() ==> piece_bounded(#[trigger] ps[i]),
    ensures
        state_bounded(apply_pieces(state, ps)),
    decreases ps.len(),
{
    if ps.len() > 0 {
        assert(piece_bounded(ps[0]));
        let next = apply_piece(state, ps[0]);
        assert(state_bounded(next));
        assert forall|i: int| 0 <= i < ps.skip(1).len() implies piece_bounded(
            #[trigger] ps.skip(1)[i],
        ) by {
            assert(ps.skip(1)[i] == ps[i + 1]);
        }
        lemma_apply_bounded(next, ps.skip(1));
    }
}

/// The index of a log holds only extents inside the log.
pub proof fn lemma_index_bounded(f: Framing, log: Seq<u8>)
    ensures
        state_bounded(index_of(f, log)),
        index_of(f, log).cursor == framed_length(f, log),
        0 <= framed_length(f, log) <= log.len(),
{
    lemma_pieces_bounded(f, log);
    lemma_apply_bounded(empty_state(), pieces(f, log));
    lemma_apply_cursor(empty_state(), pieces(f, log));
}

/// A buffer without bytes has no pieces.
pub proof fn lemma_pieces_of_nothing(f: Framing)
    ensures
        pieces(f, Seq::<u8>::empty()) == Seq::<Piece>::empty(),
{
    lemma_first_match_found(Seq::<u8>::empty(), f.terminator);
}

/// Where the terminator first stands in a buffer, it first stands in every
/// longer buffer too.
proof fn lemma_first_match_extends(buffer: Seq<u8>, more: Seq<u8>, pat: Seq<u8>, at: int)
    requires
        is_first_match(buffer, pat, at),
    ensures
        is_first_match(buffer + more, pat, at),
{
    let longer = buffer + more;
    assert(longer.take(buffer.len() as int) =~= buffer);
    lemma_match_in_prefix(longer, pat, buffer.len() as int, at);
    assert forall|j: int| 0 <= j < at implies !matches_at(longer, pat, j) by {
        lemma_match_in_prefix(longer, pat, buffer.len() as int, j);
    }
}

/// A pass over a longer buffer begins with the pieces of the shorter one, and
/// goes on with what the shorter one left open, joined with the new bytes.
pub proof fn lemma_pieces_extend(f: Framing, buffer: Seq<u8>, more: Seq<u8>)
    ensures
        pieces(f, buffer + more) == pieces(f, buffer) + pieces(
            f,
            buffer.skip(framed_length(f, buffer)) + more,
        ),
    decreases buffer.len(),
{
    let longer = buffer + more;
    if f.terminator.len() == 0 {
        assert(pieces(f, longer) =~= pieces(f, buffer) + pieces(
            f,
            buffer.skip(framed_length(f, buffer)) + more,
        ));
    } else {
        lemma_first_match_found(buffer, f.terminator);
        match first_match(buffer, f.terminator) {
            None => {
                assert(buffer.skip(0) =~= buffer);
                assert(Seq::<Piece>::empty() + pieces(f, longer) =~= pieces(f, longer));
            },
            Some(at) => {
                let consumed = at + f.terminator.len();
                let rest = buffer.skip(consumed);
                let first = Piece { record: decode_fragment(f, buffer.take(at)), consumed };
                lemma_first_match_extends(buffer, more, f.terminator, at);
                lemma_first_match_is(longer, f.terminator, at);
                assert(longer.take(at) =~= buffer.take(at));
                assert(longer.skip(consumed) =~= rest + more);
                lemma_pieces_extend(f, rest, more);
                lemma_pieces_bounded(f, rest);
                let open = framed_length(f, rest);
                assert(pieces(f, buffer) == seq![first] + pieces(f, rest));
                assert((seq![first] + pieces(f, rest)).skip(1) =~= pieces(f, rest));
                assert(framed_length(f, buffer) == consumed + open);
                assert(rest.skip(open) =~= buffer.skip(consumed + open));
                assert(seq![first] + (pieces(f, rest) + pieces(f, rest.skip(open) + more)) =~= (
                seq![first] + pieces(f, rest)) + pieces(f, rest.skip(open) + more));
            },
        }
    }
}

/// Behind a whole buffer a pass starts afresh: the pieces of the two parts,
/// one after the other, are the pieces of the whole.
pub proof fn lemma_pieces_concat(f: Framing, head: Seq<u8>, tail: Seq<u8>)
    requires
        whole(f, head),
    ensures
        pieces(f, head + tail) == pieces(f, head) + pieces(f, tail),
        framed_length(f, head + tail) == head.len() + framed_length(f, tail),
{
    lemma_pieces_extend(f, head, tail);
    assert(head.skip(head.len() as int) + tail =~= tail);
    lemma_consumed_concat(pieces(f, head), pieces(f, tail));
}

/// What a pass folds in is whole, and holds every piece of the buffer.
pub proof fn lemma_framed_prefix(f: Framing, buffer: Seq<u8>)
    ensures
        0 <= framed_length(f, buffer) <= buffer.len(),
        pieces(f, buffer.take(framed_length(f, buffer))) == pieces(f, buffer),
        aligned(f, buffer, framed_length(f, buffer)),
    decreases buffer.len(),
{
    lemma_pieces_bounded(f, buffer);
    let length = framed_length(f, buffer);
    let prefix = buffer.take(length);
    if f.terminator.len() == 0 {
        assert(pieces(f, prefix) =~= pieces(f, buffer));
    } else {
        lemma_first_match_found(buffer, f.terminator);
        match first_match(buffer, f.terminator) {
            None => {
                assert(prefix =~= Seq::<u8>::empty());
                lemma_pieces_of_nothing(f);
            },
            Some(at) => {
                let consumed = at + f.terminator.len();
                let rest = buffer.skip(consumed);
                let first = Piece { record: decode_fragment(f, buffer.take(at)), consumed };
                lemma_framed_prefix(f, rest);
                lemma_pieces_bounded(f, rest);
                let open = framed_length(f, rest);
                assert(pieces(f, buffer) == seq![first] + pieces(f, rest));
                assert((seq![first] + pieces(f, rest)).skip(1) =~= pieces(f, rest));
                assert(length == consumed + open);
                lemma_match_in_prefix(buffer, f.terminator, length, at);
                assert forall|j: int| 0 <= j < at implies !matches_at(
                    prefix,
                    f.terminator,
                    j,
                ) by {
                    lemma_match_in_prefix(buffer, f.terminator, length, j);
                }
                lemma_first_match_is(prefix, f.terminator, at);
                assert(prefix.take(at) =~= buffer.take(at));
                assert(prefix.skip(consumed) =~= rest.take(open));
            },
        }
    }
}

/// Two passes, the second of which starts where a fragment ends, arrive where
/// one pass arrives.
pub proof fn lemma_scan_concat(f: Framing, state: IndexState, head: Seq<u8>, tail: Seq<u8>)
    requires
        whole(f, head),
    ensures
        scan(f, scan(f, state, head), tail) == scan(f, state, head + tail),
{
    lemma_pieces_concat(f, head, tail);
    lemma_apply_concat(state, pieces(f, head), pieces(f, tail));
}

/// The one piece of a record that reads back, and what it decodes to.
pub proof fn lemma_record_piece(f: Framing, key: Seq<u8>, value: Seq<u8>, tombstone: bool)
    requires
        reads_back(f, key, value, tombstone),
    ensures
        pieces(f, record_bytes(f, key, value, tombstone)) == seq![
            Piece {
                record: Some(
                    RecordView {
                        key,
                        tombstone,
                        value_offset: key.len() + f.separator.len() + if tombstone {
                            1int
                        } else {
                            0int
                        },
                        value_length: value.len() as int,
                    },
                ),
                consumed: record_bytes(f, key, value, tombstone).len() as int,
            },
        ],
        whole(f, record_bytes(f, key, value, tombstone)),
{
    let segment = value_segment(f, value, tombstone);
    let fragment = key + f.separator + segment;
    let record = record_bytes(f, key, value, tombstone);
    assert(record =~= fragment + f.terminator);
    let at = fragment.len() as int;
    lemma_first_match_is(record, f.terminator, at);
    lemma_first_match_is(fragment, f.separator, key.len() as int);
    assert(record.take(at) =~= fragment);
    assert(record.skip(at + f.terminator.len()) =~= Seq::<u8>::empty());
    lemma_pieces_of_nothing(f);
    assert(fragment.take(key.len() as int) =~= key);
    let start = (key.len() + f.separator.len()) as int;
    if tombstone {
        assert(fragment[start] == f.delete_marker);
    } else {
        if value.len() > 0 {
            assert(fragment[start] == value[0]);
        }
    }
    let piece = Piece { record: decode_fragment(f, fragment), consumed: at + f.terminator.len() };
    assert(pieces(f, record) =~= seq![piece]);
    assert(seq![piece].skip(1) =~= Seq::<Piece>::empty());
    assert(consumed_by(seq![piece]) == piece.consumed + consumed_by(seq![piece].skip(1)));
}

/// A record that reads back, appended to a whole log, is the last piece of the
/// longer log, which is whole again.
pub proof fn lemma_append_record(
    f: Framing,
    log: Seq<u8>,
    key: Seq<u8>,
    value: Seq<u8>,
    tombstone: bool,
)
    requires
        whole(f, log),
        reads_back(f, key, value, tombstone),
    ensures
        whole(f, log + record_bytes(f, key, value, tombstone)),
        index_of(f, log + record_bytes(f, key, value, tombstone)) == apply_piece(
            index_of(f, log),
            pieces(f, record_bytes(f, key, value, tombstone))[0],
        ),
        index_of(f, log).cursor == log.len(),
{
    let record = record_bytes(f, key, value, tombstone);
    lemma_record_piece(f, key, value, tombstone);
    lemma_pieces_concat(f, log, record);
    lemma_apply_concat(empty_state(), pieces(f, log), pieces(f, record));
    lemma_apply_cursor(empty_state(), pieces(f, log));
    let piece = pieces(f, record)[0];
    assert(pieces(f, record).skip(1) =~= Seq::<Piece>::empty());
    assert(apply_pieces(index_of(f, log), pieces(f, record)) == apply_pieces(
        apply_piece(index_of(f, log), piece),
        pieces(f, record).skip(1),
    ));
}

/// Every entry names bytes of the log that, with the entry's key, make a
/// record that reads back.
pub open spec fn entries_read_back(f: Framing, log: Seq<u8>, state: IndexState) -> bool {
    forall|key: Seq<u8>| #[trigger]
        state.entries.contains_key(key) ==> {
            &&& 0 <= state.entries[key].offset
            &&& 0 <= state.entries[key].length
            &&& state.entries[key].offset + state.entries[key].length <= log.len()
            &&& reads_back(f, key, bytes_at(log, state.entries[key]), false)
        }
}

/// A closed fragment that decodes to a record gives back that record when its
/// key and value are written anew.
proof fn lemma_fragment_reads_back(f: Framing, tail: Seq<u8>, at: int)
    requires
        f.valid(),
        is_first_match(tail, f.terminator, at),
    ensures
        match decode_fragment(f, tail.take(at)) {
            Some(record) => {
                &&& 0 <= record.value_offset <= at
                &&& record.value_length == at - record.value_offset
                &&& !record.tombstone ==> reads_back(
                    f,
                    record.key,
                    tail.subrange(record.value_offset, at),
                    false,
                )
            },
            None => true,
        },
{
    let fragment = tail.take(at);
    lemma_first_match_found(fragment, f.separator);
    match first_match(fragment, f.separator) {
        None => {},
        Some(cut) => {
            let record = decode_fragment(f, fragment).unwrap();
            let start = cut + f.separator.len();
            if !record.tombstone {
                let key = record.key;
                let value = tail.subrange(start, at);
                let segment = value_segment(f, value, false);
                assert(segment =~= value);
                assert(fragment.subrange(cut, start) == f.separator);
                assert(key + f.separator + segment =~= fragment);
                let closed = tail.take(at + f.terminator.len());
                assert(tail.subrange(at, at + f.terminator.len()) == f.terminator);
                assert(key + f.separator + segment + f.terminator =~= closed);
                lemma_match_in_prefix(tail, f.terminator, at + f.terminator.len(), at);
                assert forall|j: int| 0 <= j < at implies !matches_at(closed, f.terminator, j) by {
                    lemma_match_in_prefix(tail, f.terminator, at + f.terminator.len(), j);
                }
                assert(is_first_match(closed, f.terminator, at));
                if value.len() > 0 {
                    assert(value[0] == fragment[start]);
                }
            }
        },
    }
}

/// A pass keeps the entries such that each names a record that reads back.
pub proof fn lemma_scan_reads_back(f: Framing, log: Seq<u8>, state: IndexState)
    requires
        f.valid(),
        0 <= state.cursor <= log.len(),
        entries_read_back(f, log, state),
    ensures
        entries_read_back(f, log, scan(f, state, log.skip(state.cursor))),
    decreases log.len() - state.cursor,
{
    let tail = log.skip(state.cursor);
    lemma_first_match_found(tail, f.terminator);
    match first_match(tail, f.terminator) {
        None => {},
        Some(at) => {
            let consumed = at + f.terminator.len();
            let piece = Piece { record: decode_fragment(f, tail.take(at)), consumed };
            let next = apply_piece(state, piece);
            let ps = pieces(f, tail);
            assert(ps == seq![piece] + pieces(f, tail.skip(consumed)));
            assert(ps[0] == piece);
            assert(ps.skip(1) =~= pieces(f, tail.skip(consumed)));
            assert(tail.skip(consumed) =~= log.skip(next.cursor));
            lemma_fragment_reads_back(f, tail, at);
            assert(entries_read_back(f, log, next)) by {
                match piece.record {
                    None => {},
                    Some(record) => {
                        if !record.tombstone {
                            let extent = Extent {
                                offset: state.cursor + record.value_offset,
                                length: record.value_length,
                            };
                            assert(bytes_at(log, extent) =~= tail.subrange(
                                record.value_offset,
                                at,
                            ));
                            assert(next.entries == state.entries.insert(record.key, extent));
                        }
                    },
                }
            }
            lemma_scan_reads_back(f, log, next);
        },
    }
}

/// Every live key of a log names, with its value, a record that reads back.
pub proof fn lemma_live_records_read_back(f: Framing, log: Seq<u8>)
    requires
        f.valid(),
    ensures
        entries_read_back(f, log, index_of(f, log)),
{
    assert(log.skip(0) =~= log);
    lemma_scan_reads_back(f, log, empty_state());
}

/// The value that the log holds for a live key.
pub open spec fn live_value(f: Framing, log: Seq<u8>, key: Seq<u8>) -> Seq<u8> {
    bytes_at(log, index_of(f, log).entries[key])
}

/// The log that holds, for each of `keys` in turn, one record with the value
/// that `source` holds for it.
pub open spec fn compacted(f: Framing, source: Seq<u8>, keys: Seq<Seq<u8>>) -> Seq<u8>
    decreases keys.len(),
{
    if keys.len() == 0 {
        Seq::<u8>::empty()
    } else {
        compacted(f, source, keys.drop_last()) + record_bytes(
            f,
            keys.last(),
            live_value(f, source, keys.last()),
            false,
        )
    }
}

/// No end of the token is also its beginning, so that two occurrences of it
/// cannot overlap. A token of one byte is of this kind.
pub open spec fn unbordered(token: Seq<u8>) -> bool {
    forall|k: int| 0 < k < token.len() ==> #[trigger] token.skip(k) != token.take(token.len() - k)
}

/// The buffer has no bytes, or its last bytes are the terminator.
pub open spec fn closed(f: Framing, buffer: Seq<u8>) -> bool {
    buffer.len() == 0 || matches_at(buffer, f.terminator, buffer.len() - f.terminator.len())
}

/// A buffer that ends with the terminator is whole, where the terminator
/// cannot overlap itself.
pub proof fn lemma_closed_is_whole(f: Framing, buffer: Seq<u8>)
    requires
        f.terminator.len() > 0,
        unbordered(f.terminator),
        closed(f, buffer),
    ensures
        whole(f, buffer),
    decreases buffer.len(),
{
    let token = f.terminator;
    if buffer.len() == 0 {
        assert(buffer =~= Seq::<u8>::empty());
        lemma_pieces_of_nothing(f);
    } else {
        let last = buffer.len() - token.len();
        lemma_first_match_found(buffer, token);
        let at = first_match(buffer, token).unwrap();
        let consumed = at + token.len();
        let rest = buffer.skip(consumed);
        let first = Piece { record: decode_fragment(f, buffer.take(at)), consumed };
        assert(pieces(f, buffer) == seq![first] + pieces(f, rest));
        assert((seq![first] + pieces(f, rest)).skip(1) =~= pieces(f, rest));
        assert(framed_length(f, buffer) == consumed + framed_length(f, rest));
        if at > last {
            assert(matches_at(buffer, token, last));
        }
        if at < last && last < consumed {
            let k = last - at;
            assert(token.skip(k) =~= buffer.subrange(at, consumed).skip(k));
            assert(token.take(token.len() - k) =~= buffer.subrange(
                last,
                last + token.len(),
            ).take(token.len() - k));
            assert(token.skip(k) =~= token.take(token.len() - k));
        }
        if at == last {
            assert(rest =~= Seq::<u8>::empty());
            lemma_pieces_of_nothing(f);
        } else {
            lemma_match_in_suffix(buffer, token, consumed, last - consumed);
            lemma_closed_is_whole(f, rest);
        }
    }
}

/// Whether a piece holds a record, or a tombstone, for `key`.
pub open spec fn holds_key(piece: Piece, key: Seq<u8>) -> bool {
    match piece.record {
        Some(record) => record.key == key,
        None => false,
    }
}

/// The offset at which the piece `i` begins, counted from the first piece.
pub open spec fn piece_start(ps: Seq<Piece>, i: int) -> int {
    consumed_by(ps.take(i))
}

/// The piece `i` is the last one that holds `key`.
pub open spec fn is_last_for(ps: Seq<Piece>, key: Seq<u8>, i: int) -> bool {
    &&& 0 <= i < ps.len()
    &&& holds_key(ps[i], key)
    &&& forall|j: int| i < j < ps.len() ==> !holds_key(#[trigger] ps[j], key)
}

/// Pieces that do not hold a key leave the key as it was.
pub proof fn lemma_other_pieces_keep(state: IndexState, ps: Seq<Piece>, key: Seq<u8>)
    requires
        forall|i: int| 0 <= i < ps.len() ==> !holds_key(#[trigger] ps[i], key),
    ensures
        apply_pieces(state, ps).entries.contains_key(key) == state.entries.contains_key(key),
        state.entries.contains_key(key) ==> apply_pieces(state, ps).entries[key]
            == state.entries[key],
    decreases ps.len(),
{
    if ps.len() > 0 {
        assert(!holds_key(ps[0], key));
        assert forall|i: int| 0 <= i < ps.skip(1).len() implies !holds_key(
            #[trigger] ps.skip(1)[i],
            key,
        ) by {
            assert(ps.skip(1)[i] == ps[i + 1]);
        }
        lemma_other_pieces_keep(apply_piece(state, ps[0]), ps.skip(1), key);
    }
}

/// After the pieces, a key is as its last piece says: absent behind a
/// tombstone, else at the value of that piece.
pub proof fn lemma_last_piece_decides(state: IndexState, ps: Seq<Piece>, key: Seq<u8>, i: int)
    requires
        is_last_for(ps, key, i),
    ensures
        ({
            let record = ps[i].record.unwrap();
            let entries = apply_pieces(state, ps).entries;
            if record.tombstone {
                !entries.contains_key(key)
            } else {
                entries.contains_key(key) && entries[key] == (Extent {
                    offset: state.cursor + piece_start(ps, i) + record.value_offset,
                    length: record.value_length,
                })
            }
        }),
    decreases ps.len(),
{
    let next = apply_piece(state, ps[0]);
    let rest = ps.skip(1);
    if i == 0 {
        assert(ps.take(0) =~= Seq::<Piece>::empty());
        assert forall|j: int| 0 <= j < rest.len() implies !holds_key(#[trigger] rest[j], key) by {
            assert(rest[j] == ps[j + 1]);
        }
        lemma_other_pieces_keep(next, rest, key);
    } else {
        assert(rest[i - 1] == ps[i]);
        assert forall|j: int| i - 1 < j < rest.len() implies !holds_key(
            #[trigger] rest[j],
            key,
        ) by {
            assert(rest[j] == ps[j + 1]);
        }
        lemma_last_piece_decides(next, rest, key, i - 1);
        assert(ps.take(i)[0] == ps[0]);
        assert(ps.take(i).skip(1) =~= rest.take(i - 1));
    }
}

} // verus!
