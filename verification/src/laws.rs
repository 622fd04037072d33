//! What holds of every log: the laws of writing, deleting and indexing.
//!
//! The store's `set` and `delete` append `record_bytes` to the log, and its
//! `get` answers `stored_value` of the log; the laws here say how the two fit
//! together. A law that speaks of a record asks that the record `reads_back`:
//! nothing is escaped in the log, so a key or a value that holds a framing
//! token is not read back as it was written.

use vstd::prelude::*;
use crate::codec::pieces;
use crate::codec::record_bytes;
use crate::config::Framing;
use crate::index::Extent;
use crate::indexer::empty_state;
use crate::indexer::IndexState;
use crate::indexer::scan;
use crate::model::aligned;
use crate::model::bytes_at;
use crate::model::compacted;
use crate::model::framed_length;
use crate::model::holds_key;
use crate::model::index_of;
use crate::model::is_last_for;
use crate::model::lemma_append_record;
use crate::model::lemma_apply_concat;
use crate::model::lemma_apply_cursor;
use crate::model::lemma_closed_is_whole;
use crate::model::lemma_framed_prefix;
use crate::model::lemma_index_bounded;
use crate::model::lemma_last_piece_decides;
use crate::model::lemma_live_records_read_back;
use crate::model::lemma_other_pieces_keep;
use crate::model::lemma_pieces_concat;
use crate::model::lemma_pieces_extend;
use crate::model::lemma_pieces_of_nothing;
use crate::model::lemma_reads_back_key;
use crate::model::lemma_record_piece;
use crate::model::lemma_scan_concat;
use crate::model::live_value;
use crate::model::piece_start;
use crate::model::reads_back;
use crate::model::stored_value;
use crate::model::unbordered;
use crate::model::whole;
use crate::pattern::lemma_match_in_prefix;
use crate::pattern::matches_at;
use crate::pattern::occurs;

verus! {

/// Round trip. A value written under a key is the value read under that key,
/// and is `Some` even where it has no bytes. The other keys keep what they
/// had. The key is one that a write accepts, and the longer log is whole again.
pub proof fn law_set_then_get(f: Framing, log: Seq<u8>, key: Seq<u8>, value: Seq<u8>)
    requires
        whole(f, log),
        reads_back(f, key, value, false),
    ensures
        !occurs(key, f.separator),
        whole(f, log + record_bytes(f, key, value, false)),
        stored_value(f, log + record_bytes(f, key, value, false), key) == Some(value),
        forall|other: Seq<u8>|
            other != key ==> #[trigger] stored_value(
                f,
                log + record_bytes(f, key, value, false),
                other,
            ) == stored_value(f, log, other),
{
    let record = record_bytes(f, key, value, false);
    let longer = log + record;
    lemma_reads_back_key(f, key, value, false);
    lemma_append_record(f, log, key, value, false);
    lemma_record_piece(f, key, value, false);
    lemma_index_bounded(f, log);
    let before = index_of(f, log);
    let after = index_of(f, longer);
    let start = log.len() + key.len() + f.separator.len();
    assert(after.entries == before.entries.insert(
        key,
        Extent { offset: start as int, length: value.len() as int },
    ));
    assert(bytes_at(longer, after.entries[key]) =~= value);
    assert forall|other: Seq<u8>| other != key implies #[trigger] stored_value(f, longer, other)
        == stored_value(f, log, other) by {
        if before.entries.contains_key(other) {
            assert(bytes_at(longer, before.entries[other]) =~= bytes_at(
                log,
                before.entries[other],
            ));
        }
    }
}

/// Deletion visibility. After a tombstone for a key, the key is absent. The
/// other keys keep what they had. The key is one that a write accepts, and the
/// longer log is whole again.
pub proof fn law_delete_then_get(f: Framing, log: Seq<u8>, key: Seq<u8>)
    requires
        whole(f, log),
        reads_back(f, key, Seq::<u8>::empty(), true),
    ensures
        !occurs(key, f.separator),
        whole(f, log + record_bytes(f, key, Seq::<u8>::empty(), true)),
        stored_value(f, log + record_bytes(f, key, Seq::<u8>::empty(), true), key) is None,
        forall|other: Seq<u8>|
            other != key ==> #[trigger] stored_value(
                f,
                log + record_bytes(f, key, Seq::<u8>::empty(), true),
                other,
            ) == stored_value(f, log, other),
{
    let nothing = Seq::<u8>::empty();
    let record = record_bytes(f, key, nothing, true);
    let longer = log + record;
    lemma_reads_back_key(f, key, nothing, true);
    lemma_append_record(f, log, key, nothing, true);
    lemma_record_piece(f, key, nothing, true);
    lemma_index_bounded(f, log);
    let before = index_of(f, log);
    let after = index_of(f, longer);
    assert(after.entries == before.entries.remove(key));
    assert forall|other: Seq<u8>| other != key implies #[trigger] stored_value(f, longer, other)
        == stored_value(f, log, other) by {
        if before.entries.contains_key(other) {
            assert(bytes_at(longer, before.entries[other]) =~= bytes_at(
                log,
                before.entries[other],
            ));
        }
    }
}

/// Last write wins. Of two values written under one key, the second is read.
pub proof fn law_last_write_wins(
    f: Framing,
    log: Seq<u8>,
    key: Seq<u8>,
    first: Seq<u8>,
    second: Seq<u8>,
)
    requires
        whole(f, log),
        reads_back(f, key, first, false),
        reads_back(f, key, second, false),
    ensures
        stored_value(
            f,
            log + record_bytes(f, key, first, false) + record_bytes(f, key, second, false),
            key,
        ) == Some(second),
{
    law_set_then_get(f, log, key, first);
    law_set_then_get(f, log + record_bytes(f, key, first, false), key, second);
}

/// A key that was written and then deleted is absent.
pub proof fn law_deleted_key_is_absent(f: Framing, log: Seq<u8>, key: Seq<u8>, value: Seq<u8>)
    requires
        whole(f, log),
        reads_back(f, key, value, false),
        reads_back(f, key, Seq::<u8>::empty(), true),
    ensures
        stored_value(
            f,
            log + record_bytes(f, key, value, false) + record_bytes(
                f,
                key,
                Seq::<u8>::empty(),
                true,
            ),
            key,
        ) is None,
{
    law_set_then_get(f, log, key, value);
    law_delete_then_get(f, log + record_bytes(f, key, value, false), key);
}

/// Resurrection. A key that was written, deleted and written again has the
/// value of the last write.
pub proof fn law_resurrection(
    f: Framing,
    log: Seq<u8>,
    key: Seq<u8>,
    first: Seq<u8>,
    second: Seq<u8>,
)
    requires
        whole(f, log),
        reads_back(f, key, first, false),
        reads_back(f, key, Seq::<u8>::empty(), true),
        reads_back(f, key, second, false),
    ensures
        stored_value(
            f,
            log + record_bytes(f, key, first, false) + record_bytes(
                f,
                key,
                Seq::<u8>::empty(),
                true,
            ) + record_bytes(f, key, second, false),
            key,
        ) == Some(second),
{
    let written = log + record_bytes(f, key, first, false);
    let deleted = written + record_bytes(f, key, Seq::<u8>::empty(), true);
    law_set_then_get(f, log, key, first);
    law_delete_then_get(f, written, key);
    law_set_then_get(f, deleted, key, second);
}

/// A key for which the log holds no record is absent, whatever else was
/// written.
pub proof fn law_unwritten_key_is_absent(f: Framing, log: Seq<u8>, key: Seq<u8>)
    requires
        forall|i: int|
            0 <= i < pieces(f, log).len() ==> !holds_key(#[trigger] pieces(f, log)[i], key),
    ensures
        stored_value(f, log, key) is None,
{
    lemma_other_pieces_keep(empty_state(), pieces(f, log), key);
}

/// The index names the latest record. What the index of a log holds for a key
/// is decided by the last piece of the log that holds the key: behind a
/// tombstone the key is absent, behind a record its entry names that record's
/// value, at its place in the log.
pub proof fn law_entry_is_last_record(f: Framing, log: Seq<u8>, key: Seq<u8>, i: int)
    requires
        is_last_for(pieces(f, log), key, i),
    ensures
        ({
            let record = pieces(f, log)[i].record.unwrap();
            let entries = index_of(f, log).entries;
            if record.tombstone {
                !entries.contains_key(key)
            } else {
                entries.contains_key(key) && entries[key] == (Extent {
                    offset: piece_start(pieces(f, log), i) + record.value_offset,
                    length: record.value_length,
                })
            }
        }),
{
    lemma_last_piece_decides(empty_state(), pieces(f, log), key, i);
}

/// Idempotent reindex. A pass from the cursor to the end of the log, made
/// again at once from the new cursor, changes nothing: not the cursor, not the
/// entries, not what was noted.
pub proof fn law_reindex_idempotent(f: Framing, state: IndexState, log: Seq<u8>)
    requires
        0 <= state.cursor <= log.len(),
    ensures
        ({
            let once = scan(f, state, log.skip(state.cursor));
            &&& state.cursor <= once.cursor <= log.len()
            &&& scan(f, once, log.skip(once.cursor)) == once
        }),
{
    let tail = log.skip(state.cursor);
    let once = scan(f, state, tail);
    lemma_apply_cursor(state, pieces(f, tail));
    lemma_framed_prefix(f, tail);
    let length = framed_length(f, tail);
    assert(log.skip(once.cursor) =~= tail.skip(length));
    lemma_pieces_extend(f, tail.take(length), tail.skip(length));
    assert(tail.take(length) + tail.skip(length) =~= tail);
    assert(tail.take(length).skip(length) + tail.skip(length) =~= tail.skip(length));
    let left = pieces(f, tail.skip(length));
    assert(pieces(f, tail) == pieces(f, tail) + left);
    assert(left.len() == 0) by {
        assert((pieces(f, tail) + left).len() == pieces(f, tail).len() + left.len());
    }
}

/// Split-scan equivalence. A pass over the first part of a buffer and then a
/// pass over the rest arrive at the index and cursor of one pass over all of
/// it, wherever the first part ends at the end of a fragment.
pub proof fn law_split_scan(f: Framing, state: IndexState, buffer: Seq<u8>, at: int)
    requires
        aligned(f, buffer, at),
    ensures
        scan(f, scan(f, state, buffer.take(at)), buffer.skip(at)) == scan(f, state, buffer),
{
    assert(buffer.take(at) + buffer.skip(at) =~= buffer);
    lemma_scan_concat(f, state, buffer.take(at), buffer.skip(at));
}

/// A pass may stop anywhere. A pass over any first part of a buffer, and then
/// a pass from the cursor that the first one reached, arrive where one pass
/// over all of it arrives.
pub proof fn law_resume_from_cursor(f: Framing, state: IndexState, buffer: Seq<u8>, at: int)
    requires
        0 <= at <= buffer.len(),
    ensures
        ({
            let seen = framed_length(f, buffer.take(at));
            &&& 0 <= seen <= at
            &&& scan(f, state, buffer.take(at)).cursor == state.cursor + seen
            &&& scan(f, scan(f, state, buffer.take(at)), buffer.skip(seen)) == scan(
                f,
                state,
                buffer,
            )
        }),
{
    let head = buffer.take(at);
    let seen = framed_length(f, head);
    lemma_framed_prefix(f, head);
    lemma_apply_cursor(state, pieces(f, head));
    lemma_pieces_extend(f, head, buffer.skip(at));
    assert(head + buffer.skip(at) =~= buffer);
    assert(head.skip(seen) + buffer.skip(at) =~= buffer.skip(seen));
    lemma_apply_concat(state, pieces(f, head), pieces(f, buffer.skip(seen)));
}

/// An offset right behind a terminator is one at which a pass may be split,
/// where the terminator cannot overlap itself; so is the offset zero.
pub proof fn law_split_behind_terminator(f: Framing, buffer: Seq<u8>, at: int)
    requires
        f.terminator.len() > 0,
        unbordered(f.terminator),
        0 <= at <= buffer.len(),
        at == 0 || matches_at(buffer, f.terminator, at - f.terminator.len()),
    ensures
        aligned(f, buffer, at),
{
    if at > 0 {
        lemma_match_in_prefix(buffer, f.terminator, at, at - f.terminator.len());
    }
    lemma_closed_is_whole(f, buffer.take(at));
}

/// Compaction keeps what it copies. The log that holds one record for each of
/// some live keys of a source, with the value that the source holds for it,
/// holds that value for each of them and nothing for any other key; and it
/// holds one piece per key, so no tombstone and no overridden record.
pub proof fn law_compaction_keeps(f: Framing, source: Seq<u8>, keys: Seq<Seq<u8>>)
    requires
        f.valid(),
        keys.no_duplicates(),
        forall|i: int|
            0 <= i < keys.len() ==> index_of(f, source).entries.contains_key(#[trigger] keys[i]),
    ensures
        whole(f, compacted(f, source, keys)),
        pieces(f, compacted(f, source, keys)).len() == keys.len(),
        forall|key: Seq<u8>| #[trigger]
            stored_value(f, compacted(f, source, keys), key) == if keys.contains(key) {
                stored_value(f, source, key)
            } else {
                None
            },
    decreases keys.len(),
{
    let destination = compacted(f, source, keys);
    if keys.len() == 0 {
        lemma_pieces_of_nothing(f);
    } else {
        let init = keys.drop_last();
        let last = keys.last();
        let value = live_value(f, source, last);
        let shorter = compacted(f, source, init);
        let record = record_bytes(f, last, value, false);
        assert forall|i: int| 0 <= i < init.len() implies index_of(f, source).entries.contains_key(
            #[trigger] init[i],
        ) by {
            assert(init[i] == keys[i]);
        }
        assert(init.no_duplicates()) by {
            assert forall|i: int, j: int| 0 <= i < init.len() && 0 <= j < init.len() && i
                != j implies init[i] != init[j] by {
                assert(init[i] == keys[i]);
                assert(init[j] == keys[j]);
            }
        }
        law_compaction_keeps(f, source, init);
        lemma_live_records_read_back(f, source);
        assert(index_of(f, source).entries.contains_key(keys[keys.len() - 1]));
        law_set_then_get(f, shorter, last, value);
        lemma_pieces_concat(f, shorter, record);
        lemma_record_piece(f, last, value, false);
        assert forall|key: Seq<u8>| #[trigger]
            stored_value(f, destination, key) == if keys.contains(key) {
                stored_value(f, source, key)
            } else {
                None
            } by {
            if key == last {
                assert(keys[keys.len() - 1] == key);
            } else {
                assert(stored_value(f, destination, key) == stored_value(f, shorter, key));
                if init.contains(key) {
                    let i = choose|i: int| 0 <= i < init.len() && init[i] == key;
                    assert(keys[i] == key);
                }
                if keys.contains(key) {
                    let i = choose|i: int| 0 <= i < keys.len() && keys[i] == key;
                    assert(init[i] == key);
                }
            }
        }
    }
}

/// Compaction fidelity. The log that holds one record for each live key of a
/// source holds for every key what the source holds for it: the live keys
/// keep their values, and the keys that were deleted, or never written, are
/// absent.
pub proof fn law_compaction_fidelity(f: Framing, source: Seq<u8>, keys: Seq<Seq<u8>>)
    requires
        f.valid(),
        keys.no_duplicates(),
        forall|key: Seq<u8>|
            index_of(f, source).entries.contains_key(key) <==> #[trigger] keys.contains(key),
    ensures
        whole(f, compacted(f, source, keys)),
        pieces(f, compacted(f, source, keys)).len() == keys.len(),
        forall|key: Seq<u8>| #[trigger]
            stored_value(f, compacted(f, source, keys), key) == stored_value(f, source, key),
{
    assert forall|i: int| 0 <= i < keys.len() implies index_of(f, source).entries.contains_key(
        #[trigger] keys[i],
    ) by {
        assert(keys.contains(keys[i]));
    }
    law_compaction_keeps(f, source, keys);
}

} // verus!
