//! Engine-level laws: how appending records changes the mapping a scan of
//! the log yields, and how the scanning read path agrees with the indexed
//! read path.

use vstd::prelude::*;

use crate::codec::crc32_of;
use crate::codec::header_ok;
use crate::codec::lemma_record_appended;
use crate::codec::lemma_record_unaffected_by_append;
use crate::codec::payload_at;
use crate::codec::rec_end;
use crate::codec::rec_key;
use crate::codec::rec_ok;
use crate::codec::rec_value;
use crate::codec::record_bytes;
use crate::codec::stored_crc;
use crate::store::find_from;
use crate::store::index_of;
use crate::store::load_from;
use crate::store::log_tight;
use crate::store::scan_ok;
use crate::store::scan_with;
use crate::store::RecoveryPolicy;
use crate::store::spec_find;
use crate::store::spec_load;

verus! {

/// An empty log scans cleanly to its (immediate) end and yields an empty
/// index: the starting point for every store built by appends alone.
pub proof fn lemma_empty_log_tight()
    ensures
        log_tight(Seq::<u8>::empty()),
        index_of(Seq::<u8>::empty()) == Map::<Seq<u8>, u64>::empty(),
{
    assert(spec_load(Seq::<u8>::empty()) == Ok::<(Map<Seq<u8>, u64>, int), (u32, u32)>(
        (Map::empty(), 0),
    ));
}

/// A scan that ends exactly at the end of the log keeps its result, with
/// one more entry for the appended record, when that record is appended.
proof fn lemma_load_from_append(
    log: Seq<u8>,
    key: Seq<u8>,
    value: Seq<u8>,
    pos: int,
    acc: Map<Seq<u8>, u64>,
)
    requires
        key.len() <= u32::MAX,
        value.len() <= u32::MAX,
        0 <= pos,
        load_from(log, pos, acc) is Ok,
        load_from(log, pos, acc)->Ok_0.1 == log.len(),
    ensures
        load_from(log + record_bytes(key, value), pos, acc) == Ok::<
            (Map<Seq<u8>, u64>, int),
            (u32, u32),
        >(
            (
                load_from(log, pos, acc)->Ok_0.0.insert(key, (log.len() as int) as u64),
                (log + record_bytes(key, value)).len() as int,
            ),
        ),
    decreases log.len() - pos,
{
    let rb = record_bytes(key, value);
    let log2 = log + rb;
    lemma_record_appended(log, key, value);
    if header_ok(log, pos) {
        lemma_record_unaffected_by_append(log, rb, pos);
        lemma_load_from_append(
            log,
            key,
            value,
            rec_end(log, pos),
            acc.insert(rec_key(log, pos), pos as u64),
        );
    } else {
        assert(load_from(log, pos, acc) == Ok::<(Map<Seq<u8>, u64>, int), (u32, u32)>(
            (acc, pos),
        ));
        assert(pos == log.len());
        assert(rec_ok(log2, pos) && rec_end(log2, pos) == log2.len());
        assert(!header_ok(log2, log2.len() as int));
        assert(load_from(log2, log2.len() as int, acc.insert(key, pos as u64)) == Ok::<
            (Map<Seq<u8>, u64>, int),
            (u32, u32),
        >((acc.insert(key, pos as u64), log2.len() as int)));
    }
}

/// Last write wins: appending a record for `key` to a cleanly scanning
/// log leaves a cleanly scanning log whose scan maps `key` to the new
/// record's offset, where exactly `value` is stored, and maps every other
/// key as before. With `load`'s and `get`'s contracts this gives that,
/// after any sequence of inserts and updates and a `load`, `get` of a key
/// returns the value of the last insert or update for it.
pub proof fn lemma_last_write_wins(log: Seq<u8>, key: Seq<u8>, value: Seq<u8>)
    requires
        log_tight(log),
        key.len() <= u32::MAX,
        value.len() <= u32::MAX,
    ensures
        ({
            let log2 = log + record_bytes(key, value);
            &&& log_tight(log2)
            &&& index_of(log2) == index_of(log).insert(key, (log.len() as int) as u64)
            &&& rec_ok(log2, log.len() as int)
            &&& rec_key(log2, log.len() as int) == key
            &&& rec_value(log2, log.len() as int) == value
        }),
{
    lemma_load_from_append(log, key, value, 0, Map::empty());
    lemma_record_appended(log, key, value);
}

/// The log after appending one record for `key` per value in `values`,
/// oldest first, to `log`.
pub open spec fn log_after_writes(log: Seq<u8>, key: Seq<u8>, values: Seq<Seq<u8>>) -> Seq<u8>
    decreases values.len(),
{
    if values.len() == 0 {
        log
    } else {
        log_after_writes(log, key, values.drop_last()) + record_bytes(key, values.last())
    }
}

/// For any sequence of inserts and updates of the same key, the scan of
/// the resulting log maps the key to a record holding the value of the
/// last call: with `load`'s and `get`'s contracts, `get` after the
/// sequence and a `load` returns exactly that value.
pub proof fn lemma_last_of_write_sequence(log: Seq<u8>, key: Seq<u8>, values: Seq<Seq<u8>>)
    requires
        log_tight(log),
        key.len() <= u32::MAX,
        forall|i: int| 0 <= i < values.len() ==> #[trigger] values[i].len() <= u32::MAX,
        values.len() > 0,
        log_after_writes(log, key, values).len() <= u64::MAX,
    ensures
        ({
            let log2 = log_after_writes(log, key, values);
            &&& log_tight(log2)
            &&& index_of(log2).contains_key(key)
            &&& rec_value(log2, index_of(log2)[key] as int) == values.last()
        }),
    decreases values.len(),
{
    let prev = log_after_writes(log, key, values.drop_last());
    assert(log_after_writes(log, key, values) == prev + record_bytes(key, values.last()));
    if values.len() > 1 {
        lemma_last_of_write_sequence(log, key, values.drop_last());
    }
    lemma_last_write_wins(prev, key, values.last());
    assert((prev.len() as int as u64) as int == prev.len());
}

/// A tombstone never reads back as absence: after a `delete` of `key`,
/// the scan of the log maps `key` to a record holding the empty value, so
/// `get` of that key yields empty bytes, not `None`.
pub proof fn lemma_delete_yields_empty(log: Seq<u8>, key: Seq<u8>)
    requires
        log_tight(log),
        log.len() <= u64::MAX,
        key.len() <= u32::MAX,
    ensures
        ({
            let log2 = log + record_bytes(key, Seq::<u8>::empty());
            &&& log_tight(log2)
            &&& index_of(log2).contains_key(key)
            &&& rec_value(log2, index_of(log2)[key] as int) == Seq::<u8>::empty()
        }),
{
    lemma_last_write_wins(log, key, Seq::<u8>::empty());
}

/// Loading is idempotent: the index a load builds is a function of the
/// log bytes alone, and a load leaves the log bytes as they are, so two
/// loads in a row produce index states with identical key-to-offset
/// mappings.
pub proof fn lemma_load_idempotent(log: Seq<u8>, first: Map<Seq<u8>, u64>, second: Map<
    Seq<u8>,
    u64,
>)
    requires
        first == index_of(log),
        second == index_of(log),
    ensures
        first == second,
{
}

/// On a log whose plain scan is clean, the recovery policy never comes
/// into play: scanning under any policy yields exactly what the aborting
/// scan yields.
proof fn lemma_scan_policy_irrelevant_when_clean(
    log: Seq<u8>,
    pos: int,
    acc: Map<Seq<u8>, u64>,
    policy: RecoveryPolicy,
)
    requires
        0 <= pos,
        load_from(log, pos, acc) is Ok,
    ensures
        scan_with(log, pos, acc, policy) == load_from(log, pos, acc),
    decreases log.len() - pos,
{
    if header_ok(log, pos) {
        lemma_scan_policy_irrelevant_when_clean(
            log,
            rec_end(log, pos),
            acc.insert(rec_key(log, pos), pos as u64),
            policy,
        );
    }
}

/// A recovery policy only matters on a damaged log: when the plain scan
/// of the whole log is clean, loading under any policy builds the same
/// index and stops at the same place as the plain load.
pub proof fn lemma_policies_agree_on_clean_log(log: Seq<u8>, policy: RecoveryPolicy)
    requires
        scan_ok(log),
    ensures
        scan_with(log, 0, Map::empty(), policy) == spec_load(log),
{
    lemma_scan_policy_irrelevant_when_clean(log, 0, Map::empty(), policy);
}

/// The relation carried through the two scans: the accumulators of the
/// index-building scan and of the `find` scan agree about `key`.
spec fn accs_agree(
    log: Seq<u8>,
    key: Seq<u8>,
    acc: Map<Seq<u8>, u64>,
    facc: Option<(u64, Seq<u8>)>,
) -> bool {
    &&& (acc.contains_key(key) <==> facc is Some)
    &&& (facc matches Some((offset, value)) ==> acc[key] == offset && rec_ok(log, offset as int)
        && rec_key(log, offset as int) == key && value == rec_value(log, offset as int))
}

/// The index-building scan and the `find` scan, run from the same
/// position with agreeing accumulators, fail together or succeed
/// together with agreeing results.
proof fn lemma_scans_agree(
    log: Seq<u8>,
    key: Seq<u8>,
    pos: int,
    acc: Map<Seq<u8>, u64>,
    facc: Option<(u64, Seq<u8>)>,
)
    requires
        log.len() <= u64::MAX,
        0 <= pos,
        accs_agree(log, key, acc, facc),
    ensures
        load_from(log, pos, acc) is Ok <==> find_from(log, pos, key, facc) is Ok,
        load_from(log, pos, acc) is Ok ==> accs_agree(
            log,
            key,
            load_from(log, pos, acc)->Ok_0.0,
            find_from(log, pos, key, facc)->Ok_0,
        ),
    decreases log.len() - pos,
{
    if header_ok(log, pos) && crc32_of(payload_at(log, pos)) == stored_crc(log, pos) {
        let acc2 = acc.insert(rec_key(log, pos), pos as u64);
        let facc2 = if rec_key(log, pos) == key {
            Some((pos as u64, rec_value(log, pos)))
        } else {
            facc
        };
        assert((pos as u64) as int == pos);
        lemma_scans_agree(log, key, rec_end(log, pos), acc2, facc2);
    }
}

/// `find` agrees with `get`: on a cleanly scanning log, the full scan for
/// `key` succeeds, reports a match exactly when the rebuilt index holds
/// the key, and then reports the offset the index holds together with the
/// value stored there — the value `get` returns.
pub proof fn lemma_find_agrees_with_get(log: Seq<u8>, key: Seq<u8>)
    requires
        scan_ok(log),
        log.len() <= u64::MAX,
    ensures
        spec_find(log, key) is Ok,
        index_of(log).contains_key(key) <==> spec_find(log, key)->Ok_0 is Some,
        spec_find(log, key)->Ok_0 matches Some((offset, value)) ==> index_of(log)[key] == offset
            && rec_ok(log, offset as int) && value == rec_value(log, offset as int),
{
    lemma_scans_agree(log, key, 0, Map::empty(), None);
}

/// Damage to a stored payload is detected as far as the checksum tells it
/// apart: changing one payload byte of a valid record leaves its header
/// intact and its payload different, and whenever the changed payload's
/// checksum differs from the untouched payload's, the record at that
/// offset no longer passes its integrity check, so `decode` there reports
/// corruption. (That flipping any single bit changes the CRC-32 checksum
/// is a property of the checksum function itself, exercised by tests.)
pub proof fn lemma_payload_damage_detected(log: Seq<u8>, pos: int, i: int, b: u8)
    requires
        rec_ok(log, pos),
        pos + 12 <= i < rec_end(log, pos),
        b != log[i],
    ensures
        ({
            let log2 = log.update(i, b);
            &&& header_ok(log2, pos)
            &&& rec_end(log2, pos) == rec_end(log, pos)
            &&& stored_crc(log2, pos) == stored_crc(log, pos)
            &&& payload_at(log2, pos) != payload_at(log, pos)
            &&& (crc32_of(payload_at(log2, pos)) != crc32_of(payload_at(log, pos)) ==> !rec_ok(
                log2,
                pos,
            ))
        }),
{
    let log2 = log.update(i, b);
    assert(log2.subrange(pos, pos + 4) =~= log.subrange(pos, pos + 4));
    assert(log2.subrange(pos + 4, pos + 8) =~= log.subrange(pos + 4, pos + 8));
    assert(log2.subrange(pos + 8, pos + 12) =~= log.subrange(pos + 8, pos + 12));
    assert(payload_at(log2, pos)[i - (pos + 12)] == b);
    assert(payload_at(log, pos)[i - (pos + 12)] == log[i]);
}

} // verus!
