//! The store: a log, the index of the part of it that was folded in, and the
//! configuration that says how the log is framed.

use vstd::prelude::*;
use once_cell::sync::OnceCell;
use crate::cell::cell_contents;
use crate::cell::cell_get;
use crate::cell::cell_new;
use crate::cell::cell_set;
use crate::codec::encode;
use crate::codec::pieces;
use crate::codec::record_bytes;
use crate::compactor::write_live;
use crate::config::Config;
use crate::config::ConfigView;
use crate::error::StoreError;
use crate::index::Index;
use crate::index::IndexEntry;
use crate::index::key_views;
use crate::indexer::empty_state;
use crate::indexer::IndexState;
use crate::indexer::offsets;
use crate::indexer::reindex;
use crate::log::AppendLog;
use crate::model::aligned;
use crate::model::index_of;
use crate::model::lemma_apply_concat;
use crate::model::lemma_framed_prefix;
use crate::model::lemma_index_bounded;
use crate::model::lemma_pieces_concat;
use crate::model::lemma_pieces_of_nothing;
use crate::model::stored_value;
use crate::model::whole;
use crate::pattern::occurs;

verus! {

/// What a write gives: the answer, and the log behind it. A store without
/// configuration and a key that holds the separator are refused and leave the
/// log as it was; else the record is appended.
pub open spec fn after_write(
    settings: Option<ConfigView>,
    log: Seq<u8>,
    key: Seq<u8>,
    value: Seq<u8>,
    tombstone: bool,
) -> (Result<(), StoreError>, Seq<u8>) {
    match settings {
        None => (Err(StoreError::NotInitialized), log),
        Some(config) => if occurs(key, config.framing.separator) {
            (Err(StoreError::KeyContainsSeparator), log)
        } else {
            (Ok(()), log + record_bytes(config.framing, key, value, tombstone))
        },
    }
}

/// A key-value store over an append-only log.
///
/// A write appends a record and leaves the index alone. A read first folds in
/// what the log has gained, so it sees every write made before it.
pub struct KeyValueStore {
    config: OnceCell<Config>,
    log: AppendLog,
    index: Index,
    malformed: Vec<u64>,
    bytes_indexed: u64,
}

impl KeyValueStore {
    /// The configuration that the store was given, if it was given one.
    pub closed spec fn settings(&self) -> Option<ConfigView> {
        cell_contents(self.config)
    }

    /// The bytes of the log.
    pub closed spec fn log_bytes(&self) -> Seq<u8> {
        self.log@
    }

    /// The index, the cursor and the noted fragments.
    pub closed spec fn state(&self) -> IndexState {
        IndexState {
            entries: self.index@,
            cursor: self.bytes_indexed as int,
            malformed: offsets(self.malformed@),
        }
    }

    /// The store is consistent. Without a configuration nothing is indexed.
    /// With one, the cursor stands where a fragment of the log ends, and the
    /// state is what one pass over the log up to the cursor gives: each entry
    /// names the value of the last record for its key among those folded in.
    pub closed spec fn wf(&self) -> bool {
        &&& self.index.wf()
        &&& match self.settings() {
            None => self.state() == empty_state(),
            Some(config) => {
                &&& config.complete()
                &&& aligned(config.framing, self.log@, self.bytes_indexed as int)
                &&& self.state() == index_of(
                    config.framing,
                    self.log@.take(self.bytes_indexed as int),
                )
            },
        }
    }

    /// In a consistent store the cursor never lies behind the end of the log.
    pub proof fn lemma_cursor_in_log(&self)
        requires
            self.wf(),
        ensures
            0 <= self.state().cursor <= self.log_bytes().len(),
    {
    }

    /// A store without configuration, with an empty log and an empty index.
    pub fn new() -> (store: KeyValueStore)
        ensures
            store.wf(),
            store.settings() is None,
            store.log_bytes() == Seq::<u8>::empty(),
            store.state() == empty_state(),
    {
        let store = KeyValueStore {
            config: cell_new(),
            log: AppendLog::new(),
            index: Index::new(),
            malformed: Vec::new(),
            bytes_indexed: 0,
        };
        assert(offsets(store.malformed@) =~= Seq::<int>::empty());
        store
    }

    /// Gives the store its configuration, once. A second call is refused,
    /// whatever it brings; so is a configuration with an empty field. The log
    /// and the index are left as they are.
    pub fn initialize(&mut self, config: Config) -> (outcome: Result<(), StoreError>)
        requires
            old(self).wf(),
        ensures
            final(self).wf(),
            final(self).log_bytes() == old(self).log_bytes(),
            final(self).state() == old(self).state(),
            outcome == if old(self).settings() is Some {
                Err::<(), StoreError>(StoreError::AlreadyInitialized)
            } else if !config.complete() {
                Err::<(), StoreError>(StoreError::MissingField)
            } else {
                Ok::<(), StoreError>(())
            },
            final(self).settings() == if outcome is Ok {
                Some(config@)
            } else {
                old(self).settings()
            },
    {
        if cell_get(&self.config).is_some() {
            return Err(StoreError::AlreadyInitialized);
        }
        if !config.is_complete() {
            return Err(StoreError::MissingField);
        }
        let ghost given = config@;
        match cell_set(&mut self.config, config) {
            Ok(_) => {
                proof {
                    assert(self.log@.take(0) =~= Seq::<u8>::empty());
                    lemma_pieces_of_nothing(given.framing);
                }
                Ok(())
            },
            Err(_) => Err(StoreError::AlreadyInitialized),
        }
    }

    /// Whether the store has its configuration.
    pub fn is_initialized(&self) -> (initialized: bool)
        ensures
            initialized == (self.settings() is Some),
    {
        cell_get(&self.config).is_some()
    }

    /// The configuration that the store was given.
    pub fn config(&self) -> (config: Option<&Config>)
        ensures
            match config {
                Some(config) => self.settings() == Some(config@),
                None => self.settings() is None,
            },
    {
        cell_get(&self.config)
    }

    /// Appends to the log what the host found in the log file behind the bytes
    /// that the store holds. The index is left alone.
    pub fn load(&mut self, bytes: &[u8])
        requires
            old(self).wf(),
        ensures
            final(self).wf(),
            final(self).settings() == old(self).settings(),
            final(self).state() == old(self).state(),
            final(self).log_bytes() == old(self).log_bytes() + bytes@,
    {
        let ghost before = self.log@;
        proof {
            self.lemma_cursor_in_log();
        }
        self.log.append(bytes);
        assert(self.log@.take(self.bytes_indexed as int) =~= before.take(
            self.bytes_indexed as int,
        ));
    }

    /// Appends one record, or a tombstone, for `key`.
    fn write(&mut self, key: &[u8], value: &[u8], tombstone: bool) -> (outcome: Result<
        (),
        StoreError,
    >)
        requires
            old(self).wf(),
        ensures
            final(self).wf(),
            final(self).settings() == old(self).settings(),
            final(self).state() == old(self).state(),
            (outcome, final(self).log_bytes()) == after_write(
                old(self).settings(),
                old(self).log_bytes(),
                key@,
                value@,
                tombstone,
            ),
    {
        let config = match cell_get(&self.config) {
            Some(config) => config,
            None => {
                return Err(StoreError::NotInitialized);
            },
        };
        match encode(config, key, value, tombstone) {
            Ok(record) => {
                let ghost before = self.log@;
                proof {
                    self.lemma_cursor_in_log();
                }
                self.log.append(record.as_slice());
                assert(self.log@.take(self.bytes_indexed as int) =~= before.take(
                    self.bytes_indexed as int,
                ));
                Ok(())
            },
            Err(error) => Err(error),
        }
    }

    /// Appends the record of `key` and `value` to the log. The index is not
    /// touched: the next read folds the record in. A key that holds the
    /// separator is refused and nothing is written.
    pub fn set(&mut self, key: &[u8], value: &[u8]) -> (outcome: Result<(), StoreError>)
        requires
            old(self).wf(),
        ensures
            final(self).wf(),
            final(self).settings() == old(self).settings(),
            final(self).state() == old(self).state(),
            (outcome, final(self).log_bytes()) == after_write(
                old(self).settings(),
                old(self).log_bytes(),
                key@,
                value@,
                false,
            ),
    {
        self.write(key, value, false)
    }

    /// Appends a tombstone for `key` to the log. A key that was never set is
    /// no failure: the tombstone is written all the same.
    pub fn delete(&mut self, key: &[u8]) -> (outcome: Result<(), StoreError>)
        requires
            old(self).wf(),
        ensures
            final(self).wf(),
            final(self).settings() == old(self).settings(),
            final(self).state() == old(self).state(),
            (outcome, final(self).log_bytes()) == after_write(
                old(self).settings(),
                old(self).log_bytes(),
                key@,
                Seq::<u8>::empty(),
                true,
            ),
    {
        let nothing: Vec<u8> = Vec::new();
        self.write(key, nothing.as_slice(), true)
    }

    /// Folds into the index what the log holds behind the cursor. Afterwards
    /// the state is what one pass over the whole log gives.
    pub fn refresh(&mut self) -> (outcome: Result<(), StoreError>)
        requires
            old(self).wf(),
        ensures
            final(self).wf(),
            final(self).settings() == old(self).settings(),
            final(self).log_bytes() == old(self).log_bytes(),
            old(self).state().cursor <= final(self).state().cursor,
            final(self).state().cursor <= final(self).log_bytes().len(),
            match old(self).settings() {
                None => {
                    &&& outcome == Err::<(), StoreError>(StoreError::NotInitialized)
                    &&& final(self).state() == old(self).state()
                },
                Some(config) => {
                    &&& outcome == Ok::<(), StoreError>(())
                    &&& final(self).state() == index_of(config.framing, old(self).log_bytes())
                },
            },
    {
        proof {
            self.lemma_cursor_in_log();
        }
        let config = match cell_get(&self.config) {
            Some(config) => config,
            None => {
                return Err(StoreError::NotInitialized);
            },
        };
        let ghost f = config.framing();
        let ghost log = self.log@;
        let ghost cursor = self.bytes_indexed as int;
        let ghost before = self.state();
        let new_cursor = reindex(
            config,
            &self.log,
            &mut self.index,
            &mut self.malformed,
            self.bytes_indexed,
        );
        self.bytes_indexed = new_cursor;
        proof {
            let head = log.take(cursor);
            let tail = log.skip(cursor);
            assert(head + tail =~= log);
            lemma_pieces_concat(f, head, tail);
            lemma_apply_concat(empty_state(), pieces(f, head), pieces(f, tail));
            assert(self.state() == index_of(f, log));
            lemma_index_bounded(f, log);
            lemma_framed_prefix(f, log);
        }
        Ok(())
    }

    /// The value of `key`, or `None` where the key is absent: never set, or
    /// deleted since. A key set to the empty value is present, with a value of
    /// no bytes. The index is brought up to the end of the log first.
    pub fn get(&mut self, key: &[u8]) -> (outcome: Result<Option<Vec<u8>>, StoreError>)
        requires
            old(self).wf(),
        ensures
            final(self).wf(),
            final(self).settings() == old(self).settings(),
            final(self).log_bytes() == old(self).log_bytes(),
            old(self).state().cursor <= final(self).state().cursor,
            final(self).state().cursor <= final(self).log_bytes().len(),
            match old(self).settings() {
                None => outcome == Err::<Option<Vec<u8>>, StoreError>(StoreError::NotInitialized)
                    && final(self).state() == old(self).state(),
                Some(config) => {
                    &&& final(self).state() == index_of(config.framing, old(self).log_bytes())
                    &&& match outcome {
                        Ok(Some(value)) => stored_value(
                            config.framing,
                            old(self).log_bytes(),
                            key@,
                        ) == Some(value@),
                        Ok(None) => stored_value(config.framing, old(self).log_bytes(), key@)
                            is None,
                        Err(_) => false,
                    }
                },
            },
    {
        match self.refresh() {
            Ok(_) => {},
            Err(error) => {
                return Err(error);
            },
        }
        proof {
            lemma_index_bounded(self.settings().unwrap().framing, self.log@);
        }
        match self.index.get(key) {
            None => Ok(None),
            Some(entry) => {
                match self.log.read_range(entry.value_offset, entry.value_length) {
                    Ok(value) => Ok(Some(value)),
                    Err(error) => Err(error),
                }
            },
        }
    }

    /// The number of log bytes folded into the index.
    pub fn bytes_indexed(&self) -> (count: u64)
        ensures
            count == self.state().cursor,
    {
        self.bytes_indexed
    }

    /// The number of live keys in the index.
    pub fn index_size(&self) -> (count: u64)
        requires
            self.wf(),
        ensures
            self.state().entries.dom().finite(),
            count == self.state().entries.dom().len(),
    {
        self.index.len() as u64
    }

    /// Where the index places the value of `key`, as of the last pass. The
    /// log is not read and the index is not brought up to date.
    pub fn entry(&self, key: &[u8]) -> (found: Option<IndexEntry>)
        requires
            self.wf(),
        ensures
            match found {
                Some(entry) => self.state().entries.contains_key(key@)
                    && self.state().entries[key@] == entry.extent(),
                None => !self.state().entries.contains_key(key@),
            },
    {
        self.index.get(key)
    }

    /// The live keys, each once, in no promised order.
    pub fn index_keys(&self) -> (keys: Vec<Vec<u8>>)
        requires
            self.wf(),
        ensures
            key_views(keys@).no_duplicates(),
            key_views(keys@).to_set() == self.state().entries.dom(),
    {
        self.index.keys()
    }

    /// The log offsets of the fragments that held no separator, in log order.
    pub fn malformed_records(&self) -> (noted: Vec<u64>)
        ensures
            offsets(noted@) == self.state().malformed,
    {
        let mut noted: Vec<u64> = Vec::new();
        let mut i: usize = 0;
        while i < self.malformed.len()
            invariant
                i <= self.malformed@.len(),
                noted@ == self.malformed@.take(i as int),
            decreases self.malformed@.len() - i,
        {
            noted.push(self.malformed[i]);
            i += 1;
            assert(noted@ =~= self.malformed@.take(i as int));
        }
        assert(self.malformed@.take(self.malformed@.len() as int) =~= self.malformed@);
        noted
    }

    /// Forgets the index: no keys, cursor zero, nothing noted. The log is not
    /// touched, so the next read folds it in from its start.
    pub fn clear(&mut self)
        requires
            old(self).wf(),
        ensures
            final(self).wf(),
            final(self).settings() == old(self).settings(),
            final(self).log_bytes() == old(self).log_bytes(),
            final(self).state() == empty_state(),
    {
        self.index.clear();
        self.malformed.clear();
        self.bytes_indexed = 0;
        proof {
            assert(offsets(self.malformed@) =~= Seq::<int>::empty());
            assert(self.log@.take(0) =~= Seq::<u8>::empty());
            if self.settings() is Some {
                lemma_pieces_of_nothing(self.settings().unwrap().framing);
            }
        }
    }

    /// Compacts the log into a fresh one, which is returned; the store keeps
    /// its own log and goes on reading from it. The index is brought up to the
    /// end of the log first. The fresh log holds one record for each live key
    /// and holds for every key what the store's log holds for it.
    pub fn compact(&mut self) -> (outcome: Result<AppendLog, StoreError>)
        requires
            old(self).wf(),
        ensures
            final(self).wf(),
            final(self).settings() == old(self).settings(),
            final(self).log_bytes() == old(self).log_bytes(),
            old(self).state().cursor <= final(self).state().cursor,
            final(self).state().cursor <= final(self).log_bytes().len(),
            match old(self).settings() {
                None => {
                    &&& outcome matches Err(error)
                    &&& error == StoreError::NotInitialized
                    &&& final(self).state() == old(self).state()
                },
                Some(config) => {
                    &&& final(self).state() == index_of(config.framing, old(self).log_bytes())
                    &&& outcome matches Ok(destination)
                    &&& whole(config.framing, destination@)
                    &&& final(self).state().entries.dom().len() == pieces(
                        config.framing,
                        destination@,
                    ).len()
                    &&& forall|key: Seq<u8>| #[trigger]
                        stored_value(config.framing, destination@, key) == stored_value(
                            config.framing,
                            old(self).log_bytes(),
                            key,
                        )
                },
            },
    {
        match self.refresh() {
            Ok(_) => {},
            Err(error) => {
                return Err(error);
            },
        }
        match cell_get(&self.config) {
            Some(config) => Ok(write_live(config, &self.log, &self.index)),
            None => Err(StoreError::NotInitialized),
        }
    }

    /// The log.
    pub fn log(&self) -> (log: &AppendLog)
        ensures
            log@ == self.log_bytes(),
    {
        &self.log
    }
}

} // verus!
