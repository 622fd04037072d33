//! The log: bytes that are only ever added at the end, and read at any place.
//!
//! The log is held in memory. Keeping a file in step with it is the host's
//! part: it hands in what the file holds and writes out what is appended.

use vstd::prelude::*;
use vstd::slice::slice_subrange;
use vstd::slice::slice_to_vec;
use crate::codec::append_bytes;
use crate::error::StoreError;

verus! {

/// An append-only run of bytes.
#[derive(Debug)]
pub struct AppendLog {
    bytes: Vec<u8>,
}

impl AppendLog {
    /// The bytes of the log.
    pub closed spec fn view(&self) -> Seq<u8> {
        self.bytes@
    }

    /// A log without bytes: what opening a log that does not exist yet gives.
    pub fn new() -> (log: AppendLog)
        ensures
            log@ == Seq::<u8>::empty(),
    {
        AppendLog { bytes: Vec::new() }
    }

    /// The log that holds `bytes`: what opening an existing log gives.
    pub fn from_bytes(bytes: Vec<u8>) -> (log: AppendLog)
        ensures
            log@ == bytes@,
    {
        AppendLog { bytes }
    }

    /// Writes `bytes` at the end.
    pub fn append(&mut self, bytes: &[u8])
        ensures
            final(self)@ == old(self)@ + bytes@,
    {
        append_bytes(&mut self.bytes, bytes);
    }

    /// The number of bytes in the log.
    pub fn length(&self) -> (length: u64)
        ensures
            length == self@.len(),
    {
        self.bytes.len() as u64
    }

    /// The `length` bytes from `offset` on. Fails where they do not all lie
    /// inside the log.
    pub fn read_range(&self, offset: u64, length: u64) -> (read: Result<Vec<u8>, StoreError>)
        ensures
            match read {
                Ok(bytes) => offset + length <= self@.len() && bytes@ == self@.subrange(
                    offset as int,
                    offset + length,
                ),
                Err(error) => error == StoreError::RangeExceedsLog && offset + length
                    > self@.len(),
            },
    {
        let total: u64 = self.bytes.len() as u64;
        if offset > total || length > total - offset {
            return Err(StoreError::RangeExceedsLog);
        }
        let start: usize = offset as usize;
        let end: usize = (offset + length) as usize;
        Ok(slice_to_vec(slice_subrange(self.bytes.as_slice(), start, end)))
    }

    /// The bytes from `offset` to the end. At or behind the end there are none.
    pub fn read_from(&self, offset: u64) -> (tail: Vec<u8>)
        ensures
            tail@ == if offset <= self@.len() {
                self@.skip(offset as int)
            } else {
                Seq::<u8>::empty()
            },
    {
        let total: u64 = self.bytes.len() as u64;
        if offset > total {
            return Vec::new();
        }
        let start: usize = offset as usize;
        let tail = slice_to_vec(slice_subrange(self.bytes.as_slice(), start, self.bytes.len()));
        assert(tail@ =~= self@.skip(offset as int));
        tail
    }

    /// The bytes of the log, borrowed.
    pub fn as_bytes(&self) -> (bytes: &[u8])
        ensures
            bytes@ == self@,
    {
        self.bytes.as_slice()
    }
}

} // verus!
