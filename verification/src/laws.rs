//! Laws of the engine, each stated over the same models that the
//! operations' contracts use: the log as a byte sequence and the index as
//! a key-to-offset map. The state changes named below are exactly those
//! that `insert`, `delete` and `load` promise in their contracts.

use vstd::prelude::*;

use crate::codec::{
    encodable, encoded_record, lemma_encoded_record_decodes, lemma_record_at_prefix,
    payload_in_bounds, rec_end, rec_key, rec_value, valid_record_at,
};
use crate::store::{replay, replay_from, store_consistent, LoadOutcome};

verus! {

/// Round trip: inserting a record for (key, value) — appending its encoding
/// and pointing the index at the old end of the log — leaves a consistent
/// store in which looking the key up yields exactly that value.
pub proof fn lemma_insert_get_round_trip(
    log: Seq<u8>,
    index: Map<Seq<u8>, u64>,
    key: Seq<u8>,
    value: Seq<u8>,
)
    requires
        store_consistent(log, index),
        encodable(key, value),
        log.len() + 12 + key.len() + value.len() <= usize::MAX,
    ensures
        ({
            let log2 = log + encoded_record(key, value);
            let index2 = index.insert(key, log.len() as u64);
            &&& store_consistent(log2, index2)
            &&& index2.contains_key(key)
            &&& index2[key] == log.len() as u64
            &&& rec_value(log2, index2[key] as int) == value
        }),
{
    let enc = encoded_record(key, value);
    let log2 = log + enc;
    let index2 = index.insert(key, log.len() as u64);
    lemma_encoded_record_decodes(log, key, value);
    assert(index2[key] as int == log.len() as int);
    assert forall|k: Seq<u8>| #[trigger] index2.contains_key(k) implies valid_record_at(
        log2,
        index2[k] as int,
    ) && rec_key(log2, index2[k] as int) == k by {
        if k != key {
            assert(index.contains_key(k));
            lemma_record_at_prefix(log, enc, index[k] as int);
        }
    }
}

/// Rebuild idempotence: replaying a log is a function of its bytes alone,
/// so loading twice against an unchanged log yields indexes with identical
/// key-to-offset contents.
pub proof fn lemma_rebuild_idempotent(log: Seq<u8>, m1: Map<Seq<u8>, u64>, m2: Map<Seq<u8>, u64>)
    requires
        replay(log) == (LoadOutcome::Done { index: m1 }),
        replay(log) == (LoadOutcome::Done { index: m2 }),
    ensures
        m1 == m2,
{
}

/// Last write wins: after inserting v1 and then v2 under one key, the
/// index holds exactly one entry for that key, it points at the offset of
/// the second record, and the value found there is v2.
pub proof fn lemma_last_write_wins(
    log: Seq<u8>,
    index: Map<Seq<u8>, u64>,
    key: Seq<u8>,
    v1: Seq<u8>,
    v2: Seq<u8>,
)
    requires
        store_consistent(log, index),
        encodable(key, v1),
        encodable(key, v2),
        log.len() + 24 + key.len() * 2 + v1.len() + v2.len() <= usize::MAX,
    ensures
        ({
            let log1 = log + encoded_record(key, v1);
            let index1 = index.insert(key, log.len() as u64);
            let log2 = log1 + encoded_record(key, v2);
            let index2 = index1.insert(key, log1.len() as u64);
            &&& store_consistent(log2, index2)
            &&& index2.contains_key(key)
            &&& index2[key] == log1.len() as u64
            &&& rec_value(log2, index2[key] as int) == v2
            &&& index2.dom() == index.dom().insert(key)
        }),
{
    let log1 = log + encoded_record(key, v1);
    let index1 = index.insert(key, log.len() as u64);
    let index2 = index1.insert(key, log1.len() as u64);
    lemma_insert_get_round_trip(log, index, key, v1);
    lemma_insert_get_round_trip(log1, index1, key, v2);
    assert(index2.dom() =~= index.dom().insert(key));
}

/// Tombstone visibility: inserting a value under a key and then deleting
/// the key — appending a record with an empty value — leaves the key
/// present in the index, and the value found for it is empty rather than
/// absent.
pub proof fn lemma_tombstone_visible(
    log: Seq<u8>,
    index: Map<Seq<u8>, u64>,
    key: Seq<u8>,
    value: Seq<u8>,
)
    requires
        store_consistent(log, index),
        encodable(key, value),
        log.len() + 24 + key.len() * 2 + value.len() <= usize::MAX,
    ensures
        ({
            let log1 = log + encoded_record(key, value);
            let index1 = index.insert(key, log.len() as u64);
            let log2 = log1 + encoded_record(key, Seq::<u8>::empty());
            let index2 = index1.insert(key, log1.len() as u64);
            &&& store_consistent(log2, index2)
            &&& index2.contains_key(key)
            &&& rec_value(log2, index2[key] as int) == Seq::<u8>::empty()
        }),
{
    let log1 = log + encoded_record(key, value);
    let index1 = index.insert(key, log.len() as u64);
    lemma_insert_get_round_trip(log, index, key, value);
    lemma_insert_get_round_trip(log1, index1, key, Seq::<u8>::empty());
}

/// Replaying the extension: appending one record to a log whose replay
/// finishes at `pos` with `acc` rebuilt makes the replay finish one step
/// later, binding the record's key to the old end of the log.
#[verifier::rlimit(50)]
proof fn lemma_replay_from_append(
    log: Seq<u8>,
    key: Seq<u8>,
    value: Seq<u8>,
    pos: int,
    acc: Map<Seq<u8>, u64>,
    m: Map<Seq<u8>, u64>,
)
    requires
        0 <= pos <= log.len(),
        replay_from(log, pos, acc) == (LoadOutcome::Done { index: m }),
        encodable(key, value),
        log.len() <= usize::MAX,
    ensures
        replay_from(log + encoded_record(key, value), pos, acc) == (LoadOutcome::Done {
            index: m.insert(key, log.len() as u64),
        }),
    decreases log.len() - pos,
{
    let enc = encoded_record(key, value);
    let log2 = log + enc;
    if pos >= log.len() {
        lemma_encoded_record_decodes(log, key, value);
        assert(valid_record_at(log2, pos));
        assert(rec_end(log2, pos) == log2.len());
        assert(rec_key(log2, pos) == key);
        assert(acc == m);
        assert(replay_from(log2, pos, acc) == replay_from(
            log2,
            rec_end(log2, pos),
            acc.insert(key, pos as u64),
        ));
    } else {
        assert(payload_in_bounds(log, pos));
        assert(crate::codec::checksum_ok(log, pos));
        lemma_record_at_prefix(log, enc, pos);
        lemma_replay_from_append(
            log,
            key,
            value,
            rec_end(log, pos),
            acc.insert(rec_key(log, pos), pos as u64),
            m,
        );
    }
}

/// A mutation keeps the index in step with a rebuild: when the index
/// equals what replaying the log yields, then after an insert — the log
/// extended by one record, the index pointing the record's key at the old
/// end — the index again equals what replaying the extended log yields.
/// Each index entry therefore names the most recent record for its key.
pub proof fn lemma_replay_after_append(
    log: Seq<u8>,
    m: Map<Seq<u8>, u64>,
    key: Seq<u8>,
    value: Seq<u8>,
)
    requires
        replay(log) == (LoadOutcome::Done { index: m }),
        encodable(key, value),
        log.len() <= usize::MAX,
    ensures
        replay(log + encoded_record(key, value)) == (LoadOutcome::Done {
            index: m.insert(key, log.len() as u64),
        }),
{
    lemma_replay_from_append(log, key, value, 0, Map::empty(), m);
}

} // verus!
