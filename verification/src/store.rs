//! The store facade: an append-only log of records paired with an index
//! that maps each key to the offset of its most recent record.
//!
//! The store owns the log as a byte vector; reading the backing file into
//! memory and appending new bytes back to it is the caller's concern. Every
//! operation here is specified exactly: appends extend the log by one
//! encoded record, lookups return the value of the record the index points
//! at, and loading rebuilds the index by replaying the log from offset 0.

use vstd::prelude::*;

use crate::codec::{
    checksum_ok, decode_at, encodable, encode, encoded_record, lemma_encoded_record_decodes,
    lemma_record_at_prefix, payload_in_bounds, rec_end, rec_key, rec_value, valid_record_at,
    DecodeError, KeyValuePair,
};
use crate::index::Index;

verus! {

/// What replaying a log from its start yields: either the finished
/// key-to-offset mapping, or the mapping rebuilt so far together with the
/// position of the record that stopped the scan.
pub ghost enum LoadOutcome {
    /// The scan reached the end of the log cleanly.
    Done { index: Map<Seq<u8>, u64> },
    /// The record at `pos` would run past the end of the log.
    TruncatedAt { index: Map<Seq<u8>, u64>, pos: int },
    /// The record at `pos` failed its checksum.
    CorruptAt { index: Map<Seq<u8>, u64>, pos: int },
}

/// Replays the log from `pos`, given the mapping `acc` rebuilt so far:
/// each well-formed record binds its key to the offset it starts at, later
/// records overwriting earlier ones.
pub open spec fn replay_from(log: Seq<u8>, pos: int, acc: Map<Seq<u8>, u64>) -> LoadOutcome
    decreases log.len() - pos,
{
    if pos >= log.len() {
        LoadOutcome::Done { index: acc }
    } else if !payload_in_bounds(log, pos) {
        LoadOutcome::TruncatedAt { index: acc, pos }
    } else if !checksum_ok(log, pos) {
        LoadOutcome::CorruptAt { index: acc, pos }
    } else {
        replay_from(log, rec_end(log, pos), acc.insert(rec_key(log, pos), pos as u64))
    }
}

/// Replays the whole log, starting from an empty mapping.
pub open spec fn replay(log: Seq<u8>) -> LoadOutcome {
    replay_from(log, 0, Map::empty())
}

/// Every key the index holds points at a record that lies within the log,
/// passes its checksum, and carries that very key.
pub open spec fn store_consistent(log: Seq<u8>, index: Map<Seq<u8>, u64>) -> bool {
    forall|k: Seq<u8>| #[trigger] index.contains_key(k) ==> valid_record_at(log, index[k] as int)
        && rec_key(log, index[k] as int) == k
}

/// The storage engine: one log of record bytes and one index over it.
pub struct ActionKV {
    log: Vec<u8>,
    index: Index,
}

impl ActionKV {
    /// The bytes of the append-only log.
    pub closed spec fn log_bytes(self) -> Seq<u8> {
        self.log@
    }

    /// The key-to-offset mapping of the index.
    pub closed spec fn index_map(self) -> Map<Seq<u8>, u64> {
        self.index@
    }

    /// The index's own representation invariant.
    pub closed spec fn index_wf(self) -> bool {
        self.index.wf()
    }

    /// Well-formed: the index representation is sound and every entry
    /// points at a valid record holding its key.
    pub open spec fn wf(self) -> bool {
        self.index_wf() && store_consistent(self.log_bytes(), self.index_map())
    }

    /// Creates a store over the given log contents with an empty index.
    /// The index reflects the log only after `load`.
    pub fn open(contents: Vec<u8>) -> (r: ActionKV)
        ensures
            r.wf(),
            r.log_bytes() == contents@,
            r.index_map() == Map::<Seq<u8>, u64>::empty(),
    {
        ActionKV { log: contents, index: Index::new() }
    }

    /// The length of the log in bytes.
    pub fn log_len(&self) -> (n: usize)
        ensures
            n == self.log_bytes().len(),
    {
        self.log.len()
    }

    /// The raw bytes of the log, for the caller to persist.
    pub fn log_contents(&self) -> (r: &[u8])
        ensures
            r@ == self.log_bytes(),
    {
        self.log.as_slice()
    }

    /// The number of keys the index holds.
    pub fn index_len(&self) -> (n: usize)
        requires
            self.wf(),
        ensures
            self.index_map().dom().finite(),
            n == self.index_map().dom().len(),
    {
        self.index.len()
    }

    /// The offset the index holds for `key`, if any.
    pub fn offset_of(&self, key: &[u8]) -> (r: Option<u64>)
        requires
            self.wf(),
        ensures
            match r {
                Some(offset) => self.index_map().contains_key(key@) && self.index_map()[key@]
                    == offset,
                None => !self.index_map().contains_key(key@),
            },
    {
        self.index.lookup(key)
    }

    /// Rebuilds the index by replaying the log from offset 0. Succeeds
    /// exactly when every record scans cleanly to the end of the log; a
    /// truncated or corrupt record stops the scan there, leaving the index
    /// holding the records replayed before it.
    pub fn load(&mut self) -> (r: Result<(), DecodeError>)
        ensures
            final(self).wf(),
            final(self).log_bytes() == old(self).log_bytes(),
            match replay(old(self).log_bytes()) {
                LoadOutcome::Done { index } => r == Ok::<(), DecodeError>(())
                    && final(self).index_map() == index,
                LoadOutcome::TruncatedAt { index, pos } => r == Err::<(), DecodeError>(
                    DecodeError::Truncated,
                ) && final(self).index_map() == index,
                LoadOutcome::CorruptAt { index, pos } => r == Err::<(), DecodeError>(
                    DecodeError::Corruption,
                ) && final(self).index_map() == index,
            },
    {
        self.index.clear();
        let mut pos: usize = 0;
        loop
            invariant
                self.log@ == old(self).log@,
                self.index.wf(),
                pos <= self.log@.len(),
                store_consistent(self.log@, self.index@),
                replay_from(self.log@, pos as int, self.index@) == replay(old(self).log_bytes()),
            decreases self.log@.len() - pos,
        {
            let step = decode_at(self.log.as_slice(), pos);
            match step {
                Ok((kv, end)) => {
                    self.index.set(kv.key.as_slice(), pos as u64);
                    pos = end;
                },
                Err(DecodeError::EndOfLog) => {
                    return Ok(());
                },
                Err(DecodeError::Truncated) => {
                    return Err(DecodeError::Truncated);
                },
                Err(DecodeError::Corruption) => {
                    return Err(DecodeError::Corruption);
                },
            }
        }
    }

    /// The value of the most recent record for `key`, or `None` when the
    /// index does not hold the key. A key whose last record is a tombstone
    /// is still present and yields its empty value.
    pub fn get(&self, key: &[u8]) -> (r: Option<Vec<u8>>)
        requires
            self.wf(),
        ensures
            match r {
                Some(v) => self.index_map().contains_key(key@) && v@ == rec_value(
                    self.log_bytes(),
                    self.index_map()[key@] as int,
                ),
                None => !self.index_map().contains_key(key@),
            },
    {
        let position = match self.index.lookup(key) {
            Some(position) => position,
            None => {
                return None;
            },
        };
        match self.get_at(position) {
            Ok(kv) => Some(kv.value),
            Err(_) => unreached(),
        }
    }

    /// Decodes the record that starts at `position`. The outcome follows
    /// the bytes found there exactly: a record within bounds whose checksum
    /// matches is returned; a position at or past the end of the log is the
    /// clean end; a record that would run past the end is truncated; a
    /// checksum mismatch is corruption.
    pub fn get_at(&self, position: u64) -> (r: Result<KeyValuePair, DecodeError>)
        ensures
            match r {
                Ok(kv) => valid_record_at(self.log_bytes(), position as int) && kv.key@ == rec_key(
                    self.log_bytes(),
                    position as int,
                ) && kv.value@ == rec_value(self.log_bytes(), position as int),
                Err(DecodeError::EndOfLog) => position >= self.log_bytes().len(),
                Err(DecodeError::Truncated) => position < self.log_bytes().len()
                    && !payload_in_bounds(self.log_bytes(), position as int),
                Err(DecodeError::Corruption) => payload_in_bounds(
                    self.log_bytes(),
                    position as int,
                ) && !checksum_ok(self.log_bytes(), position as int),
            },
    {
        if position >= self.log.len() as u64 {
            return Err(DecodeError::EndOfLog);
        }
        let pos = position as usize;
        match decode_at(self.log.as_slice(), pos) {
            Ok((kv, _end)) => Ok(kv),
            Err(e) => Err(e),
        }
    }

    /// Appends one encoded record for (key, value) at the end of the log
    /// and returns the offset it starts at, leaving the index untouched.
    pub fn insert_but_ignore_index(&mut self, key: &[u8], value: &[u8]) -> (r: u64)
        requires
            old(self).wf(),
            encodable(key@, value@),
        ensures
            final(self).wf(),
            final(self).log_bytes() == old(self).log_bytes() + encoded_record(key@, value@),
            final(self).index_map() == old(self).index_map(),
            r == old(self).log_bytes().len(),
    {
        let offset = self.log.len() as u64;
        let record = encode(key, value);
        crate::codec::push_bytes(&mut self.log, record.as_slice());
        proof {
            assert forall|k: Seq<u8>| #[trigger] self.index@.contains_key(k) implies valid_record_at(
                self.log@,
                self.index@[k] as int,
            ) && rec_key(self.log@, self.index@[k] as int) == k by {
                lemma_record_at_prefix(
                    old(self).log@,
                    encoded_record(key@, value@),
                    self.index@[k] as int,
                );
            }
        }
        offset
    }

    /// Appends a record for (key, value) and points the index at it. The
    /// log grows by exactly one record even when the key already exists;
    /// the superseded bytes stay in the file, unreachable via the index.
    pub fn insert(&mut self, key: &[u8], value: &[u8])
        requires
            old(self).wf(),
            encodable(key@, value@),
        ensures
            final(self).wf(),
            final(self).log_bytes() == old(self).log_bytes() + encoded_record(key@, value@),
            final(self).index_map() == old(self).index_map().insert(
                key@,
                old(self).log_bytes().len() as u64,
            ),
    {
        let position = self.insert_but_ignore_index(key, value);
        self.index.set(key, position);
        proof {
            lemma_encoded_record_decodes(old(self).log@, key@, value@);
            assert forall|k: Seq<u8>| #[trigger] self.index@.contains_key(k) implies valid_record_at(
                self.log@,
                self.index@[k] as int,
            ) && rec_key(self.log@, self.index@[k] as int) == k by {
                if k != key@ {
                    assert(old(self).index@.contains_key(k));
                }
            }
        }
    }

    /// Behaviourally identical to `insert`: no check that the key already
    /// exists is made or wanted.
    pub fn update(&mut self, key: &[u8], value: &[u8])
        requires
            old(self).wf(),
            encodable(key@, value@),
        ensures
            final(self).wf(),
            final(self).log_bytes() == old(self).log_bytes() + encoded_record(key@, value@),
            final(self).index_map() == old(self).index_map().insert(
                key@,
                old(self).log_bytes().len() as u64,
            ),
    {
        self.insert(key, value)
    }

    /// Deletes by appending a tombstone: a record for the key whose value
    /// has zero length. The key stays in the index, bound to the tombstone.
    pub fn delete(&mut self, key: &[u8])
        requires
            old(self).wf(),
            encodable(key@, Seq::<u8>::empty()),
        ensures
            final(self).wf(),
            final(self).log_bytes() == old(self).log_bytes() + encoded_record(
                key@,
                Seq::<u8>::empty(),
            ),
            final(self).index_map() == old(self).index_map().insert(
                key@,
                old(self).log_bytes().len() as u64,
            ),
    {
        let empty: Vec<u8> = Vec::new();
        self.insert(key, empty.as_slice());
    }
}

} // verus!
