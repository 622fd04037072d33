//! Folding the log into the index.
//!
//! A pass reads the bytes from the cursor on, decodes them and applies the
//! records in the order in which they were appended, so that a later record
//! for a key overrides every earlier one.

use vstd::prelude::*;
use crate::codec::consumed_by;
use crate::codec::decode_all;
use crate::codec::Piece;
use crate::codec::piece_of;
use crate::codec::pieces;
use crate::codec::pieces_of;
use crate::config::Config;
use crate::config::Framing;
use crate::index::Extent;
use crate::index::Index;
use crate::index::IndexEntry;
use crate::index::slice_to_owned;
use crate::log::AppendLog;
use crate::pattern::first_match;
use crate::pattern::lemma_first_match_found;

verus! {

/// What indexing has arrived at: the live keys with the places of their
/// values, the number of log bytes folded in, and the log offsets of the
/// fragments that could not be decoded.
pub struct IndexState {
    pub entries: Map<Seq<u8>, Extent>,
    pub cursor: int,
    pub malformed: Seq<int>,
}

/// The state before anything is indexed.
pub open spec fn empty_state() -> IndexState {
    IndexState { entries: Map::empty(), cursor: 0, malformed: Seq::empty() }
}

/// The state after one more piece, which begins at the cursor. A record puts
/// its key in the map, a tombstone takes its key out, a fragment without a
/// separator is noted and skipped. In each case the cursor moves behind the
/// piece.
pub open spec fn apply_piece(state: IndexState, piece: Piece) -> IndexState {
    let cursor = state.cursor + piece.consumed;
    match piece.record {
        None => IndexState {
            entries: state.entries,
            cursor,
            malformed: state.malformed.push(state.cursor),
        },
        Some(record) => if record.tombstone {
            IndexState {
                entries: state.entries.remove(record.key),
                cursor,
                malformed: state.malformed,
            }
        } else {
            IndexState {
                entries: state.entries.insert(
                    record.key,
                    Extent {
                        offset: state.cursor + record.value_offset,
                        length: record.value_length,
                    },
                ),
                cursor,
                malformed: state.malformed,
            }
        },
    }
}

/// The state after the pieces, applied first to last.
pub open spec fn apply_pieces(state: IndexState, ps: Seq<Piece>) -> IndexState
    decreases ps.len(),
{
    if ps.len() == 0 {
        state
    } else {
        apply_pieces(apply_piece(state, ps[0]), ps.skip(1))
    }
}

/// The state after a pass over `buffer`, which begins at the cursor of `state`.
pub open spec fn scan(f: Framing, state: IndexState, buffer: Seq<u8>) -> IndexState {
    apply_pieces(state, pieces(f, buffer))
}

/// A piece whose value lies inside it.
pub open spec fn piece_bounded(piece: Piece) -> bool {
    &&& piece.consumed > 0
    &&& match piece.record {
        None => true,
        Some(record) => {
            &&& 0 <= record.value_offset
            &&& 0 <= record.value_length
            &&& record.value_offset + record.value_length < piece.consumed
        },
    }
}

/// The pieces of a buffer lie inside it, and the value of each inside the piece.
pub proof fn lemma_pieces_bounded(f: Framing, buffer: Seq<u8>)
    ensures
        forall|i: int|
            0 <= i < pieces(f, buffer).len() ==> piece_bounded(#[trigger] pieces(f, buffer)[i]),
        0 <= consumed_by(pieces(f, buffer)) <= buffer.len(),
    decreases buffer.len(),
{
    let ps = pieces(f, buffer);
    if f.terminator.len() > 0 {
        lemma_first_match_found(buffer, f.terminator);
        match first_match(buffer, f.terminator) {
            None => {},
            Some(at) => {
                let consumed = at + f.terminator.len();
                let fragment = buffer.take(at);
                let rest = pieces(f, buffer.skip(consumed));
                lemma_pieces_bounded(f, buffer.skip(consumed));
                lemma_first_match_found(fragment, f.separator);
                assert(piece_bounded(ps[0]));
                assert(ps.skip(1) =~= rest);
                assert forall|i: int| 0 <= i < ps.len() implies piece_bounded(#[trigger] ps[i]) by {
                    if i > 0 {
                        assert(ps[i] == rest[i - 1]);
                    }
                }
            },
        }
    }
}

/// Pieces that each take up something take up something together.
pub proof fn lemma_consumed_nonnegative(ps: Seq<Piece>)
    requires
        forall|i: int| 0 <= i < ps.len() ==> piece_bounded(#[trigger] ps[i]),
    ensures
        0 <= consumed_by(ps),
    decreases ps.len(),
{
    if ps.len() > 0 {
        assert(piece_bounded(ps[0]));
        assert forall|i: int| 0 <= i < ps.skip(1).len() implies piece_bounded(
            #[trigger] ps.skip(1)[i],
        ) by {
            assert(ps.skip(1)[i] == ps[i + 1]);
        }
        lemma_consumed_nonnegative(ps.skip(1));
    }
}

/// The log offsets, as mathematical integers.
pub open spec fn offsets(noted: Seq<u64>) -> Seq<int> {
    Seq::new(noted.len(), |i: int| noted[i] as int)
}

/// One indexing pass. Reads the log from `cursor` to its end, applies each
/// decoded record to `index` in log order, notes in `malformed` the log offset
/// of each fragment that holds no separator, and returns the cursor behind the
/// last closed fragment. A cursor behind the end of the log changes nothing.
pub fn reindex(
    config: &Config,
    log: &AppendLog,
    index: &mut Index,
    malformed: &mut Vec<u64>,
    cursor: u64,
) -> (new_cursor: u64)
    requires
        old(index).wf(),
    ensures
        final(index).wf(),
        cursor <= new_cursor,
        cursor <= log@.len() ==> new_cursor <= log@.len(),
        (IndexState {
            entries: final(index)@,
            cursor: new_cursor as int,
            malformed: offsets(final(malformed)@),
        }) == ({
            let before = IndexState {
                entries: old(index)@,
                cursor: cursor as int,
                malformed: offsets(old(malformed)@),
            };
            if cursor <= log@.len() {
                scan(config.framing(), before, log@.skip(cursor as int))
            } else {
                before
            }
        }),
{
    let ghost f = config.framing();
    let ghost before = IndexState {
        entries: index@,
        cursor: cursor as int,
        malformed: offsets(malformed@),
    };
    let total = log.length();
    if cursor > total {
        return cursor;
    }
    let tail = log.read_from(cursor);
    let items = decode_all(config, tail.as_slice());
    let ghost ps = pieces_of(items@);
    proof {
        lemma_pieces_bounded(f, tail@);
        assert(ps.skip(0) =~= ps);
    }
    let mut current: u64 = cursor;
    let mut i: usize = 0;
    while i < items.len()
        invariant
            index.wf(),
            i <= items@.len(),
            ps == pieces_of(items@),
            ps.len() == items@.len(),
            forall|j: int| 0 <= j < ps.len() ==> piece_bounded(#[trigger] ps[j]),
            0 <= consumed_by(ps.skip(i as int)),
            current + consumed_by(ps.skip(i as int)) == cursor + consumed_by(ps),
            cursor + consumed_by(ps) <= log@.len() <= u64::MAX,
            apply_pieces(
                IndexState {
                    entries: index@,
                    cursor: current as int,
                    malformed: offsets(malformed@),
                },
                ps.skip(i as int),
            ) == apply_pieces(before, ps),
        decreases items@.len() - i,
    {
        let ghost here = IndexState {
            entries: index@,
            cursor: current as int,
            malformed: offsets(malformed@),
        };
        let ghost rest = ps.skip(i as int);
        proof {
            assert(rest[0] == ps[i as int]);
            assert(ps[i as int] == piece_of(items@[i as int]));
            assert(piece_bounded(ps[i as int]));
            assert(rest.skip(1) =~= ps.skip(i + 1));
            assert forall|j: int| 0 <= j < ps.skip(i + 1).len() implies piece_bounded(
                #[trigger] ps.skip(i + 1)[j],
            ) by {
                assert(ps.skip(i + 1)[j] == ps[i + 1 + j]);
            }
            lemma_consumed_nonnegative(ps.skip(i + 1));
        }
        let consumed: u64 = match &items[i] {
            Ok(record) => {
                if record.tombstone {
                    index.remove(record.key.as_slice());
                } else {
                    let entry = IndexEntry {
                        value_offset: current + record.value_offset,
                        value_length: record.value_length,
                    };
                    index.insert(slice_to_owned(record.key.as_slice()), entry);
                }
                record.consumed
            },
            Err(fragment) => {
                let ghost noted = offsets(malformed@);
                malformed.push(current);
                assert(offsets(malformed@) =~= noted.push(current as int));
                fragment.consumed
            },
        };
        current = current + consumed;
        i += 1;
        assert((IndexState {
            entries: index@,
            cursor: current as int,
            malformed: offsets(malformed@),
        }) == apply_piece(here, rest[0]));
    }
    proof {
        assert(ps.skip(items@.len() as int) =~= Seq::<Piece>::empty());
    }
    current
}

} // verus!
