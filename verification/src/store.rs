//! The storage engine: an append-only log of records held as one byte
//! sequence, and the operations `open`, `load`, `get`, `insert`, `update`,
//! `delete` and `find` on top of it.
//!
//! The store works on the log image in memory; reading the image from a
//! file and appending new bytes to it belong to the surrounding program.

use vstd::prelude::*;

use crate::codec;
use crate::codec::KeyValuePair;
use crate::codec::KvError;
use crate::codec::crc32_of;
use crate::codec::header_ok;
use crate::codec::payload_at;
use crate::codec::rec_end;
use crate::codec::rec_key;
use crate::codec::rec_ok;
use crate::codec::rec_value;
use crate::codec::record_bytes;
use crate::codec::stored_crc;
use crate::index::Index;

verus! {

/// What `load` does on meeting a record whose checksum does not match.
#[derive(Debug, Clone, Copy, PartialEq, Eq, Structural)]
pub enum RecoveryPolicy {
    /// Stop and report the corruption to the caller.
    Abort,
    /// Keep what was read so far and cut the log back to the last good
    /// record, dropping the damaged one and everything after it.
    Truncate,
    /// Index nothing from the damaged record, step over the extent its
    /// header announces, and go on scanning.
    Skip,
}

/// The outcome of scanning the log forward from `pos` with the entries
/// gathered so far in `acc`, treating damaged records as `policy` says:
/// the final key-to-offset mapping and the position where the scan
/// stopped, or, under `Abort`, the checksum pair of the first damaged
/// record.
pub open spec fn scan_with(
    log: Seq<u8>,
    pos: int,
    acc: Map<Seq<u8>, u64>,
    policy: RecoveryPolicy,
) -> Result<(Map<Seq<u8>, u64>, int), (u32, u32)>
    decreases log.len() - pos,
{
    if !header_ok(log, pos) {
        Ok((acc, pos))
    } else if crc32_of(payload_at(log, pos)) != stored_crc(log, pos) {
        match policy {
            RecoveryPolicy::Abort => Err(
                (crc32_of(payload_at(log, pos)), stored_crc(log, pos)),
            ),
            RecoveryPolicy::Truncate => Ok((acc, pos)),
            RecoveryPolicy::Skip => scan_with(log, rec_end(log, pos), acc, policy),
        }
    } else {
        scan_with(log, rec_end(log, pos), acc.insert(rec_key(log, pos), pos as u64), policy)
    }
}

/// The outcome of the plain, aborting scan from `pos`: the mapping and
/// the stop position, or the checksum pair of the first damaged record.
pub open spec fn load_from(log: Seq<u8>, pos: int, acc: Map<Seq<u8>, u64>) -> Result<
    (Map<Seq<u8>, u64>, int),
    (u32, u32),
> {
    scan_with(log, pos, acc, RecoveryPolicy::Abort)
}

/// The outcome of a full scan of the log from the start.
pub open spec fn spec_load(log: Seq<u8>) -> Result<(Map<Seq<u8>, u64>, int), (u32, u32)> {
    load_from(log, 0, Map::empty())
}

/// Whether a full scan of the log runs to its end without meeting a
/// damaged record.
pub open spec fn scan_ok(log: Seq<u8>) -> bool {
    spec_load(log) is Ok
}

/// The key-to-offset mapping a full scan of the log yields: each key
/// present in the log mapped to the offset of its chronologically last
/// record.
pub open spec fn index_of(log: Seq<u8>) -> Map<Seq<u8>, u64> {
    match spec_load(log) {
        Ok(p) => p.0,
        Err(_) => Map::empty(),
    }
}

/// The position where a full scan of the log stops.
pub open spec fn scan_end(log: Seq<u8>) -> int {
    match spec_load(log) {
        Ok(p) => p.1,
        Err(_) => 0,
    }
}

/// A log whose scan is clean and stops exactly at the end of the bytes:
/// no damaged record and no trailing fragment. Every log built purely by
/// appending encoded records is of this shape.
pub open spec fn log_tight(log: Seq<u8>) -> bool {
    scan_ok(log) && scan_end(log) == log.len()
}

/// The outcome of scanning the log forward from `pos` for the last record
/// whose key is `target`, with the best match so far in `acc`.
pub open spec fn find_from(
    log: Seq<u8>,
    pos: int,
    target: Seq<u8>,
    acc: Option<(u64, Seq<u8>)>,
) -> Result<Option<(u64, Seq<u8>)>, (u32, u32)>
    decreases log.len() - pos,
{
    if !header_ok(log, pos) {
        Ok(acc)
    } else if crc32_of(payload_at(log, pos)) != stored_crc(log, pos) {
        Err((crc32_of(payload_at(log, pos)), stored_crc(log, pos)))
    } else {
        find_from(
            log,
            rec_end(log, pos),
            target,
            if rec_key(log, pos) == target {
                Some((pos as u64, rec_value(log, pos)))
            } else {
                acc
            },
        )
    }
}

/// The outcome of a full scan of the log for the last record whose key is
/// `target`.
pub open spec fn spec_find(log: Seq<u8>, target: Seq<u8>) -> Result<
    Option<(u64, Seq<u8>)>,
    (u32, u32),
> {
    find_from(log, 0, target, None)
}

/// The offset-and-value pair a `find` hands back, as specifications see it.
pub open spec fn found_view(res: Option<(u64, Vec<u8>)>) -> Option<(u64, Seq<u8>)> {
    match res {
        None => None,
        Some((offset, value)) => Some((offset, value@)),
    }
}

/// Every entry of the index points at a valid record whose key is the
/// entry's key.
pub open spec fn index_wf(log: Seq<u8>, index: Map<Seq<u8>, u64>) -> bool {
    forall|k: Seq<u8>| #[trigger]
        index.contains_key(k) ==> rec_ok(log, index[k] as int) && rec_key(log, index[k] as int)
            == k
}

/// The key-value store: one append-only log of records and an in-memory
/// index from key bytes to the offset of that key's most recent record.
#[derive(Debug)]
pub struct ActionKV {
    pub log: Vec<u8>,
    pub index: Index,
}

impl ActionKV {
    /// Well-formed: the index has no duplicate keys and each of its
    /// entries points at a valid record for that key.
    pub open spec fn wf(&self) -> bool {
        self.index.wf() && index_wf(self.log@, self.index@)
    }

    /// Takes ownership of the log bytes as read from storage. The index
    /// starts empty: queries are only meaningful once `load` has run.
    pub fn open(log: Vec<u8>) -> (s: Self)
        ensures
            s.wf(),
            s.log@ == log@,
            s.index@ == Map::<Seq<u8>, u64>::empty(),
    {
        ActionKV { log, index: Index::new() }
    }

    /// Scans the whole log and rebuilds the index with a fresh, complete
    /// scan, later records for a key overwriting earlier ones. Stops with
    /// a `Corruption` error at the first record whose checksum does not
    /// match; reaching the end of the log is the normal terminator, not
    /// an error.
    pub fn load(&mut self) -> (r: Result<(), KvError>)
        requires
            old(self).wf(),
        ensures
            final(self).wf(),
            final(self).log@ == old(self).log@,
            match r {
                Ok(()) => scan_ok(old(self).log@) && final(self).index@ == index_of(
                    old(self).log@,
                ),
                Err(KvError::Corruption { computed, stored }) => spec_load(old(self).log@)
                    == Err::<(Map<Seq<u8>, u64>, int), (u32, u32)>((computed, stored)),
                Err(KvError::UnexpectedEof) => false,
            },
    {
        self.load_with(RecoveryPolicy::Abort)
    }

    /// Scans the whole log and rebuilds the index as `load` does, but
    /// treats a record whose checksum does not match as `policy` says:
    /// stop with the error, keep what was read and cut the log back to
    /// where the scan stopped (under `Truncate` a trailing fragment is
    /// cut as well), or step over the damaged record and go on. Only
    /// `Abort` can fail; only `Truncate` changes the log.
    pub fn load_with(&mut self, policy: RecoveryPolicy) -> (r: Result<(), KvError>)
        requires
            old(self).wf(),
        ensures
            final(self).wf(),
            match r {
                Ok(()) => scan_with(old(self).log@, 0, Map::empty(), policy) matches Ok(p)
                    && final(self).index@ == p.0 && (if policy is Truncate {
                    final(self).log@ == old(self).log@.subrange(0, p.1)
                } else {
                    final(self).log@ == old(self).log@
                }),
                Err(KvError::Corruption { computed, stored }) => {
                    &&& policy is Abort
                    &&& scan_with(old(self).log@, 0, Map::empty(), policy) == Err::<
                        (Map<Seq<u8>, u64>, int),
                        (u32, u32),
                    >((computed, stored))
                    &&& final(self).log@ == old(self).log@
                },
                Err(KvError::UnexpectedEof) => false,
            },
    {
        self.index = Index::new();
        let n: usize = self.log.len();
        let mut pos: usize = 0;
        let ghost mut acc: Map<Seq<u8>, u64> = Map::empty();
        loop
            invariant
                self.wf(),
                self.log@ == old(self).log@,
                self.log@.len() <= usize::MAX,
                pos <= self.log@.len(),
                scan_with(self.log@, 0, Map::empty(), policy) == scan_with(
                    self.log@,
                    pos as int,
                    acc,
                    policy,
                ),
                self.index@ == acc,
                forall|k: Seq<u8>| #[trigger]
                    acc.contains_key(k) ==> rec_ok(self.log@, acc[k] as int) && rec_key(
                        self.log@,
                        acc[k] as int,
                    ) == k && rec_end(self.log@, acc[k] as int) <= pos,
            decreases self.log@.len() - pos,
        {
            match codec::decode(&self.log, pos) {
                Err(KvError::UnexpectedEof) => {
                    proof {
                        assert(scan_with(self.log@, pos as int, acc, policy) == Ok::<
                            (Map<Seq<u8>, u64>, int),
                            (u32, u32),
                        >((acc, pos as int)));
                    }
                    if let RecoveryPolicy::Truncate = policy {
                        self.log.truncate(pos);
                        proof {
                            assert forall|k: Seq<u8>| #[trigger]
                                self.index@.contains_key(k) implies rec_ok(
                                self.log@,
                                self.index@[k] as int,
                            ) && rec_key(self.log@, self.index@[k] as int) == k by {
                                codec::lemma_record_in_prefix(
                                    old(self).log@,
                                    pos as int,
                                    acc[k] as int,
                                );
                            }
                        }
                    }
                    return Ok(());
                },
                Err(KvError::Corruption { computed, stored }) => {
                    match policy {
                        RecoveryPolicy::Abort => {
                            return Err(KvError::Corruption { computed, stored });
                        },
                        RecoveryPolicy::Truncate => {
                            proof {
                                assert(scan_with(self.log@, pos as int, acc, policy) == Ok::<
                                    (Map<Seq<u8>, u64>, int),
                                    (u32, u32),
                                >((acc, pos as int)));
                            }
                            self.log.truncate(pos);
                            proof {
                                assert forall|k: Seq<u8>| #[trigger]
                                    self.index@.contains_key(k) implies rec_ok(
                                    self.log@,
                                    self.index@[k] as int,
                                ) && rec_key(self.log@, self.index@[k] as int) == k by {
                                    codec::lemma_record_in_prefix(
                                        old(self).log@,
                                        pos as int,
                                        acc[k] as int,
                                    );
                                }
                            }
                            return Ok(());
                        },
                        RecoveryPolicy::Skip => {
                            let lens = codec::header_lens(&self.log, pos);
                            proof {
                                assert(scan_with(self.log@, pos as int, acc, policy) == scan_with(
                                    self.log@,
                                    rec_end(self.log@, pos as int),
                                    acc,
                                    policy,
                                ));
                            }
                            pos = pos + 12 + lens.0 as usize + lens.1 as usize;
                        },
                    }
                },
                Ok(kv) => {
                    proof {
                        assert(kv.key@.len() == codec::key_len_at(self.log@, pos as int));
                        assert(kv.value@.len() == codec::value_len_at(self.log@, pos as int));
                    }
                    self.index.set(kv.key.as_slice(), pos as u64);
                    proof {
                        acc = acc.insert(kv.key@, pos as u64);
                    }
                    pos = pos + 12 + kv.key.len() + kv.value.len();
                },
            }
        }
    }

    /// Appends one encoded record for `key` and `value` at the end of the
    /// log, leaving the index alone, and returns the offset at which the
    /// record begins.
    pub fn insert_but_ignore_index(&mut self, key: &[u8], value: &[u8]) -> (r: u64)
        requires
            old(self).wf(),
            key@.len() <= u32::MAX,
            value@.len() <= u32::MAX,
            old(self).log@.len() + 12 + key@.len() + value@.len() <= usize::MAX,
        ensures
            final(self).wf(),
            final(self).log@ == old(self).log@ + record_bytes(key@, value@),
            final(self).index@ == old(self).index@,
            final(self).index == old(self).index,
            r == old(self).log@.len() as u64,
            rec_ok(final(self).log@, r as int),
            rec_key(final(self).log@, r as int) == key@,
            rec_value(final(self).log@, r as int) == value@,
            rec_end(final(self).log@, r as int) == final(self).log@.len(),
    {
        let position = self.log.len() as u64;
        let rec = codec::encode(key, value);
        codec::push_bytes(&mut self.log, rec.as_slice());
        proof {
            codec::lemma_record_appended(old(self).log@, key@, value@);
            assert forall|k: Seq<u8>| #[trigger] self.index@.contains_key(k) implies rec_ok(
                self.log@,
                self.index@[k] as int,
            ) && rec_key(self.log@, self.index@[k] as int) == k by {
                codec::lemma_record_unaffected_by_append(
                    old(self).log@,
                    record_bytes(key@, value@),
                    self.index@[k] as int,
                );
            }
        }
        position
    }

    /// Appends a record for `key` and `value` and points the index entry
    /// for `key` at it. Unconditional: an existing record for the key is
    /// left on disk and merely superseded.
    pub fn insert(&mut self, key: &[u8], value: &[u8])
        requires
            old(self).wf(),
            key@.len() <= u32::MAX,
            value@.len() <= u32::MAX,
            old(self).log@.len() + 12 + key@.len() + value@.len() <= usize::MAX,
        ensures
            final(self).wf(),
            final(self).log@ == old(self).log@ + record_bytes(key@, value@),
            final(self).index@ == old(self).index@.insert(key@, old(self).log@.len() as u64),
    {
        let position = self.insert_but_ignore_index(key, value);
        self.index.set(key, position);
    }

    /// `update` is `insert`: the prior record for the key stays in the
    /// log and the index entry moves to the new one.
    pub fn update(&mut self, key: &[u8], value: &[u8])
        requires
            old(self).wf(),
            key@.len() <= u32::MAX,
            value@.len() <= u32::MAX,
            old(self).log@.len() + 12 + key@.len() + value@.len() <= usize::MAX,
        ensures
            final(self).wf(),
            final(self).log@ == old(self).log@ + record_bytes(key@, value@),
            final(self).index@ == old(self).index@.insert(key@, old(self).log@.len() as u64),
    {
        self.insert(key, value);
    }

    /// `delete` appends a tombstone: a record for the key with an empty
    /// value. The key stays present and reads back as empty bytes.
    pub fn delete(&mut self, key: &[u8])
        requires
            old(self).wf(),
            key@.len() <= u32::MAX,
            old(self).log@.len() + 12 + key@.len() <= usize::MAX,
        ensures
            final(self).wf(),
            final(self).log@ == old(self).log@ + record_bytes(key@, Seq::<u8>::empty()),
            final(self).index@ == old(self).index@.insert(key@, old(self).log@.len() as u64),
    {
        let empty: Vec<u8> = Vec::new();
        self.insert(key, empty.as_slice());
    }

    /// Reads back the record starting at `position` in the log.
    pub fn get_at(&self, position: u64) -> (r: KeyValuePair)
        requires
            rec_ok(self.log@, position as int),
        ensures
            r.key@ == rec_key(self.log@, position as int),
            r.value@ == rec_value(self.log@, position as int),
    {
        let n: usize = self.log.len();
        assert(position + 12 <= n);
        match codec::decode(&self.log, position as usize) {
            Ok(kv) => kv,
            Err(_) => {
                proof {
                    assert(false);
                }
                vstd::pervasive::unreached()
            },
        }
    }

    /// The value of the record the index holds for `key`: `None` exactly
    /// when the index has no entry for the key. A key whose last record
    /// is a tombstone yields `Some` of empty bytes, not `None`.
    pub fn get(&self, key: &[u8]) -> (r: Option<Vec<u8>>)
        requires
            self.wf(),
        ensures
            match r {
                Some(value) => self.index@.contains_key(key@) && value@ == rec_value(
                    self.log@,
                    self.index@[key@] as int,
                ),
                None => !self.index@.contains_key(key@),
            },
    {
        let position = match self.index.lookup(key) {
            None => {
                return None;
            },
            Some(position) => position,
        };
        let kv = self.get_at(position);
        Some(kv.value)
    }

    /// Scans the whole log, ignoring the index, and returns the offset
    /// and value of the last record whose key equals `target`, or `None`
    /// if no record has that key. Stops with a `Corruption` error at the
    /// first record whose checksum does not match.
    pub fn find(&self, target: &[u8]) -> (r: Result<Option<(u64, Vec<u8>)>, KvError>)
        ensures
            match r {
                Ok(res) => spec_find(self.log@, target@) == Ok::<
                    Option<(u64, Seq<u8>)>,
                    (u32, u32),
                >(found_view(res)),
                Err(KvError::Corruption { computed, stored }) => spec_find(self.log@, target@)
                    == Err::<Option<(u64, Seq<u8>)>, (u32, u32)>((computed, stored)),
                Err(KvError::UnexpectedEof) => false,
            },
    {
        let n: usize = self.log.len();
        let mut pos: usize = 0;
        let mut found: Option<(u64, Vec<u8>)> = None;
        loop
            invariant
                self.log@.len() <= usize::MAX,
                pos <= self.log@.len(),
                spec_find(self.log@, target@) == find_from(
                    self.log@,
                    pos as int,
                    target@,
                    found_view(found),
                ),
            decreases self.log@.len() - pos,
        {
            match codec::decode(&self.log, pos) {
                Err(KvError::UnexpectedEof) => {
                    proof {
                        assert(find_from(self.log@, pos as int, target@, found_view(found))
                            == Ok::<Option<(u64, Seq<u8>)>, (u32, u32)>(found_view(found)));
                    }
                    return Ok(found);
                },
                Err(e) => {
                    return Err(e);
                },
                Ok(kv) => {
                    proof {
                        assert(kv.key@.len() == codec::key_len_at(self.log@, pos as int));
                        assert(kv.value@.len() == codec::value_len_at(self.log@, pos as int));
                    }
                    if crate::index::bytes_eq(kv.key.as_slice(), target) {
                        let next = pos + 12 + kv.key.len() + kv.value.len();
                        found = Some((pos as u64, kv.value));
                        pos = next;
                    } else {
                        pos = pos + 12 + kv.key.len() + kv.value.len();
                    }
                },
            }
        }
    }
}

} // verus!
