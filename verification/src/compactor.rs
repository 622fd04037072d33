//! Compaction: a second log that holds the live records of the first and
//! nothing else.

use vstd::prelude::*;
use crate::codec::encode;
use crate::codec::pieces;
use crate::config::Config;
use crate::error::StoreError;
use crate::index::Index;
use crate::index::key_views;
use crate::indexer::offsets;
use crate::indexer::reindex;
use crate::laws::law_compaction_fidelity;
use crate::log::AppendLog;
use crate::model::compacted;
use crate::model::entries_read_back;
use crate::model::index_of;
use crate::model::lemma_index_bounded;
use crate::model::lemma_live_records_read_back;
use crate::model::lemma_reads_back_key;
use crate::model::live_value;
use crate::model::stored_value;
use crate::model::whole;

verus! {

/// Writes a fresh log with one record for each key of `index`, which is the
/// index of `source`: the key with the bytes that its entry names in `source`.
/// The new log holds for every key what the source holds for it; tombstones
/// and overridden records are not copied.
pub(crate) fn write_live(config: &Config, source: &AppendLog, index: &Index) -> (destination:
    AppendLog)
    requires
        config.framing().valid(),
        index.wf(),
        index@ == index_of(config.framing(), source@).entries,
    ensures
        whole(config.framing(), destination@),
        pieces(config.framing(), destination@).len() == index@.dom().len(),
        forall|key: Seq<u8>| #[trigger]
            stored_value(config.framing(), destination@, key) == stored_value(
                config.framing(),
                source@,
                key,
            ),
{
    let ghost f = config.framing();
    let keys = index.keys();
    let ghost views = key_views(keys@);
    let mut destination = AppendLog::new();
    let mut i: usize = 0;
    proof {
        lemma_live_records_read_back(f, source@);
        lemma_index_bounded(f, source@);
        assert(views.take(0) =~= Seq::<Seq<u8>>::empty());
        assert forall|j: int| 0 <= j < keys@.len() implies index@.contains_key(
            #[trigger] keys@[j]@,
        ) by {
            assert(views[j] == keys@[j]@);
            assert(views.to_set().contains(views[j]));
        }
    }
    while i < keys.len()
        invariant
            i <= keys@.len(),
            f == config.framing(),
            f.valid(),
            index.wf(),
            index@ == index_of(f, source@).entries,
            views == key_views(keys@),
            forall|j: int| 0 <= j < keys@.len() ==> index@.contains_key(#[trigger] keys@[j]@),
            entries_read_back(f, source@, index_of(f, source@)),
            destination@ == compacted(f, source@, views.take(i as int)),
        decreases keys@.len() - i,
    {
        let key = keys[i].as_slice();
        proof {
            assert(index@.contains_key(keys@[i as int]@));
            lemma_reads_back_key(f, key@, live_value(f, source@, key@), false);
            let next = views.take(i + 1);
            assert(next.drop_last() =~= views.take(i as int));
            assert(next.last() == key@);
        }
        match index.get(key) {
            Some(entry) => {
                match source.read_range(entry.value_offset, entry.value_length) {
                    Ok(value) => {
                        match encode(config, key, value.as_slice(), false) {
                            Ok(record) => {
                                destination.append(record.as_slice());
                            },
                            Err(_) => {
                                assert(false);
                            },
                        }
                    },
                    Err(_) => {
                        assert(false);
                    },
                }
            },
            None => {
                assert(false);
            },
        }
        i += 1;
    }
    proof {
        assert(views.take(keys@.len() as int) =~= views);
        assert forall|key: Seq<u8>|
            index_of(f, source@).entries.contains_key(key) <==> #[trigger] views.contains(
                key,
            ) by {
            assert(views.to_set().contains(key) == views.contains(key));
        }
        views.unique_seq_to_set();
        law_compaction_fidelity(f, source@, views);
    }
    destination
}

/// Compacts a log. One pass over `source` from its first byte gives the live
/// keys; the result is a fresh log with one record for each of them. The
/// source is not changed, and the result is not swapped in for it: that is
/// the caller's to do. A configuration without separator or terminator is
/// refused.
pub fn compact(config: &Config, source: &AppendLog) -> (outcome: Result<AppendLog, StoreError>)
    ensures
        match outcome {
            Ok(destination) => {
                &&& config.framing().valid()
                &&& whole(config.framing(), destination@)
                &&& index_of(config.framing(), source@).entries.dom().finite()
                &&& pieces(config.framing(), destination@).len() == index_of(
                    config.framing(),
                    source@,
                ).entries.dom().len()
                &&& forall|key: Seq<u8>| #[trigger]
                    stored_value(config.framing(), destination@, key) == stored_value(
                        config.framing(),
                        source@,
                        key,
                    )
            },
            Err(error) => error == StoreError::MissingField && !config.framing().valid(),
        },
{
    if config.key_value_separator.len() == 0 || config.end_of_record.len() == 0 {
        return Err(StoreError::MissingField);
    }
    let mut index = Index::new();
    let mut malformed: Vec<u64> = Vec::new();
    assert(offsets(malformed@) =~= Seq::<int>::empty());
    assert(source@.skip(0) =~= source@);
    let _ = reindex(config, source, &mut index, &mut malformed, 0);
    proof {
        index.lemma_finite();
    }
    Ok(write_live(config, source, &index))
}

} // verus!
