//! The log-structured engine: an append-only log of records, the index of
//! live keys over it, recovery of the index from the log, and compaction.
//!
//! The engine holds the bytes of the active log and decides what they are
//! after every operation; putting them on disk is left to the caller.

use vstd::prelude::*;
use vstd::slice::slice_subrange;
use crate::codec::{
    decode_entry, decode_stream_front, decoded, encode_entry, record_bytes, stream_front, LogEntry,
    LogEntryView,
};
use crate::error::KvsError;
use crate::index::{distinct_keys, has_key, lemma_map_at, map_of, slot_of, Index, LogPosition, Slot};

verus! {

/// The number of appended records above which the log is compacted.
pub const COMPACT_NUM_THRESHOLD: u64 = 512;

/// What is kept beside the log: where the store lives, how long the active
/// log is, and how many records were appended since the last compaction.
#[derive(Debug)]
pub struct MetaData {
    pub store_path: String,
    pub cur_file_end: u64,
    pub since_last_compact_log_num: u64,
}

/// The state of a store as a mathematical value.
pub ghost struct StoreState {
    pub path: Seq<char>,
    pub end: u64,
    pub count: u64,
    pub entries: Seq<(Seq<char>, LogPosition)>,
    pub log: Seq<u8>,
}

/// What reading a run of bytes as a `Set` record gives.
pub ghost enum Reading {
    /// The bytes hold a `Set` record with this value.
    Value(Seq<char>),
    /// The bytes hold no record.
    Malformed,
    /// The bytes hold a record that is no `Set`.
    NotASet,
}

/// Reads a run of bytes as a `Set` record.
pub open spec fn reading(bytes: Seq<u8>) -> Reading {
    match decoded(bytes) {
        Some(LogEntryView::SetKey { key, value }) => Reading::Value(value),
        Some(LogEntryView::Rm { key }) => Reading::NotASet,
        None => Reading::Malformed,
    }
}

/// The bytes of the log that a position covers.
pub open spec fn record_at(log: Seq<u8>, pos: LogPosition) -> Seq<u8> {
    log.subrange(pos.start as int, pos.start + pos.len)
}

/// One more record appended, counted up to the largest number.
pub open spec fn bumped(count: u64) -> u64 {
    if count < u64::MAX {
        (count + 1) as u64
    } else {
        count
    }
}

/// The slots after binding `key` to `pos`: a live key keeps its slot, a new
/// key gets a slot at the end.
pub open spec fn bound(entries: Seq<(Seq<char>, LogPosition)>, key: Seq<char>, pos: LogPosition) -> Seq<(Seq<char>, LogPosition)> {
    if has_key(entries, key) {
        entries.update(slot_of(entries, key), (key, pos))
    } else {
        entries.push((key, pos))
    }
}

/// The slots after unbinding `key`.
pub open spec fn unbound(entries: Seq<(Seq<char>, LogPosition)>, key: Seq<char>) -> Seq<(Seq<char>, LogPosition)> {
    if has_key(entries, key) {
        entries.remove(slot_of(entries, key))
    } else {
        entries
    }
}

/// The record that compaction writes for a slot: a fresh `Set` record of the
/// slot's key and of the value read at the slot's position. `None` where the
/// position holds no `Set` record or the fresh record cannot be encoded.
pub open spec fn rewritten(log: Seq<u8>, slot: (Seq<char>, LogPosition)) -> Option<Seq<u8>> {
    match reading(record_at(log, slot.1)) {
        Reading::Value(value) => record_bytes(LogEntryView::SetKey { key: slot.0, value }),
        _ => None,
    }
}

/// The compacted log of the first `n` slots: their fresh records in the
/// order of the slots. `None` where one of them cannot be written.
pub open spec fn compacted_log(log: Seq<u8>, entries: Seq<(Seq<char>, LogPosition)>, n: nat) -> Option<Seq<u8>>
    decreases n,
{
    if n == 0 {
        Some(Seq::empty())
    } else {
        match (compacted_log(log, entries, (n - 1) as nat), rewritten(log, entries[n - 1])) {
            (Some(before), Some(record)) => Some(before + record),
            _ => None,
        }
    }
}

/// The first of the first `n` slots that compaction cannot rewrite.
pub open spec fn first_unwritable(log: Seq<u8>, entries: Seq<(Seq<char>, LogPosition)>, n: nat) -> Option<int>
    decreases n,
{
    if n == 0 {
        None
    } else {
        match first_unwritable(log, entries, (n - 1) as nat) {
            Some(i) => Some(i),
            None => if rewritten(log, entries[n - 1]) is None {
                Some(n - 1)
            } else {
                None
            },
        }
    }
}

/// The position that compaction gives to slot `i`.
pub open spec fn compacted_position(log: Seq<u8>, entries: Seq<(Seq<char>, LogPosition)>, i: int) -> LogPosition {
    LogPosition {
        start: compacted_log(log, entries, i as nat).unwrap().len() as u64,
        len: rewritten(log, entries[i]).unwrap().len() as u64,
    }
}

impl StoreState {
    /// A store without records at `path`.
    pub open spec fn empty(path: Seq<char>) -> StoreState {
        StoreState { path, end: 0, count: 0, entries: Seq::empty(), log: Seq::empty() }
    }

    /// The store's invariant: no key is indexed twice, the recorded end of the
    /// log is its length, and every indexed position lies inside the log.
    pub open spec fn wf(self) -> bool {
        &&& distinct_keys(self.entries)
        &&& self.end == self.log.len()
        &&& forall|i: int| 0 <= i < self.entries.len() ==> (#[trigger] self.entries[i]).1.end() <= self.log.len()
    }

    /// The index: each live key with the position of its record.
    pub open spec fn index(self) -> Map<Seq<char>, LogPosition> {
        map_of(self.entries)
    }

    /// Each live key with the bytes of its record.
    pub open spec fn records(self) -> Map<Seq<char>, Seq<u8>> {
        Map::new(
            |key: Seq<char>| self.index().contains_key(key),
            |key: Seq<char>| record_at(self.log, self.index()[key]),
        )
    }

    /// What `get` finds for a key: nothing where the key is not live, else
    /// what reading the key's record gives.
    pub open spec fn answer(self, key: Seq<char>) -> Option<Reading> {
        if self.index().contains_key(key) {
            Some(reading(self.records()[key]))
        } else {
            None
        }
    }

    /// The store after `record` was appended to the log.
    pub open spec fn appended(self, record: Seq<u8>) -> StoreState {
        StoreState {
            end: (self.log.len() + record.len()) as u64,
            count: bumped(self.count),
            log: self.log + record,
            ..self
        }
    }

    /// The store after the `Set` record `record` for `key` was appended and
    /// indexed.
    pub open spec fn after_set(self, key: Seq<char>, record: Seq<u8>) -> StoreState {
        StoreState {
            entries: bound(self.entries, key, LogPosition { start: self.end, len: record.len() as u64 }),
            ..self.appended(record)
        }
    }

    /// The store after `key` was taken out of the index and the `Rm` record
    /// `record` was appended.
    pub open spec fn after_remove(self, key: Seq<char>, record: Seq<u8>) -> StoreState {
        StoreState { entries: unbound(self.entries, key), ..self.appended(record) }
    }

    /// The store after compaction: the log holds one fresh `Set` record for
    /// each live key, in the order of the slots, and nothing else. `None`
    /// where a record cannot be rewritten.
    pub open spec fn compacted(self) -> Option<StoreState> {
        match compacted_log(self.log, self.entries, self.entries.len()) {
            Some(log) => Some(
                StoreState {
                    path: self.path,
                    end: log.len() as u64,
                    count: 0,
                    entries: Seq::new(
                        self.entries.len(),
                        |i: int| (self.entries[i].0, compacted_position(self.log, self.entries, i)),
                    ),
                    log,
                },
            ),
            None => None,
        }
    }

    /// Whether `e` is the error of a compaction that fails: `Unknown` where
    /// the first slot that cannot be rewritten points at a record that is no
    /// `Set`, else `SerdeError`.
    pub open spec fn compaction_error_is(self, e: KvsError) -> bool {
        match first_unwritable(self.log, self.entries, self.entries.len()) {
            Some(i) => match reading(record_at(self.log, self.entries[i].1)) {
                Reading::NotASet => e is Unknown,
                _ => e is SerdeError,
            },
            None => false,
        }
    }

    /// The store after the check that ends `set` and `remove`: compacted
    /// where more than `COMPACT_NUM_THRESHOLD` records were appended since
    /// the last compaction, else as it is.
    pub open spec fn settled(self) -> Option<StoreState> {
        if self.count > COMPACT_NUM_THRESHOLD {
            self.compacted()
        } else {
            Some(self)
        }
    }
}

/// Whether `out` and the state `after` are what ends a `set` or a `remove`
/// that found its key. `appended` is the store with the new record appended
/// and indexed, or nothing where the record could not be encoded: then the
/// operation fails with `SerdeError` and leaves the store as it was. Else the
/// store is compacted where the threshold calls for it. Where compaction
/// fails, the operation fails with the error of the compaction and the store
/// stays as it was before compaction, with the new record in it.
pub open spec fn write_result_is(
    out: Result<(), KvsError>,
    before: StoreState,
    appended: Option<StoreState>,
    after: StoreState,
) -> bool {
    match appended {
        None => out matches Err(KvsError::SerdeError(_)) && after == before,
        Some(mid) => match mid.settled() {
            Some(done) => out is Ok && after == done,
            None => out matches Err(e) && mid.compaction_error_is(e) && after == mid,
        },
    }
}

/// The first slot that cannot be rewritten stays the first one when more
/// slots are looked at.
pub proof fn lemma_first_unwritable_stays(log: Seq<u8>, entries: Seq<(Seq<char>, LogPosition)>, i: nat, n: nat)
    requires
        i <= n,
        first_unwritable(log, entries, i) is Some,
    ensures
        first_unwritable(log, entries, n) == first_unwritable(log, entries, i),
    decreases n,
{
    if i < n {
        lemma_first_unwritable_stays(log, entries, i, (n - 1) as nat);
    }
}

/// Where the first `i` slots cannot be compacted, no longer run of slots can.
pub proof fn lemma_compaction_fails_on(log: Seq<u8>, entries: Seq<(Seq<char>, LogPosition)>, i: nat, n: nat)
    requires
        i <= n,
        compacted_log(log, entries, i) is None,
    ensures
        compacted_log(log, entries, n) is None,
    decreases n,
{
    if i < n {
        lemma_compaction_fails_on(log, entries, i, (n - 1) as nat);
    }
}

/// The engine's state: metadata, index and the bytes of the active log.
#[derive(Debug)]
pub struct MutableKvsData {
    pub metadata: MetaData,
    pub store_map: Index,
    pub log: Vec<u8>,
}

impl View for MutableKvsData {
    type V = StoreState;

    open spec fn view(&self) -> StoreState {
        StoreState {
            path: self.metadata.store_path@,
            end: self.metadata.cur_file_end,
            count: self.metadata.since_last_compact_log_num,
            entries: self.store_map.entries(),
            log: self.log@,
        }
    }
}

/// Whether a result of `get` is what the store's answer for the key calls
/// for: no value for a key that is not live, the value read for a live key,
/// `SerdeError` where the record cannot be read, `Unknown` where it is no
/// `Set` record.
pub open spec fn get_result_is(out: Result<Option<String>, KvsError>, answer: Option<Reading>) -> bool {
    match answer {
        None => out matches Ok(None),
        Some(Reading::Value(value)) => out matches Ok(Some(text)) && text@ == value,
        Some(Reading::Malformed) => out matches Err(KvsError::SerdeError(_)),
        Some(Reading::NotASet) => out matches Err(KvsError::Unknown),
    }
}

/// The value that a record assigns: that of a `Set` record; a `Rm` record
/// assigns none, which is the error `Unknown`.
pub fn value_of(entry: LogEntry) -> (out: Result<String, KvsError>)
    ensures
        match entry@ {
            LogEntryView::SetKey { key, value } => out matches Ok(text) && text@ == value,
            LogEntryView::Rm { key } => out matches Err(KvsError::Unknown),
        },
{
    match entry {
        LogEntry::SetKey { key: _, value } => Ok(value),
        LogEntry::Rm { key: _ } => Err(KvsError::Unknown),
    }
}

impl MutableKvsData {
    /// The store's invariant.
    pub open spec fn wf(&self) -> bool {
        self.store_map.wf() && self@.wf()
    }

    /// Looks a key up: finds its record through the index, reads it from the
    /// log and hands out the value in it.
    pub fn get(&self, key: String) -> (out: Result<Option<String>, KvsError>)
        requires
            self.wf(),
        ensures
            get_result_is(out, self@.answer(key@)),
    {
        match self.store_map.get(&key) {
            None => Ok(None),
            Some(pos) => {
                proof {
                    let i = slot_of(self@.entries, key@);
                    lemma_map_at(self@.entries, i);
                }
                match self.read_at(pos) {
                    Ok(found) => Ok(Some(found)),
                    Err(e) => Err(e),
                }
            },
        }
    }

    fn read_at(&self, pos: LogPosition) -> (out: Result<String, KvsError>)
        requires
            pos.end() <= self.log@.len(),
        ensures
            match reading(record_at(self.log@, pos)) {
                Reading::Value(value) => out matches Ok(text) && text@ == value,
                Reading::Malformed => out matches Err(KvsError::SerdeError(_)),
                Reading::NotASet => out matches Err(KvsError::Unknown),
            },
    {
        let size: usize = self.log.len();
        let start: usize = pos.start as usize;
        let end: usize = (pos.start + pos.len) as usize;
        let bytes = slice_subrange(self.log.as_slice(), start, end);
        match decode_entry(bytes) {
            Ok(entry) => value_of(entry),
            Err(e) => Err(e),
        }
    }

    /// Appends the record of `log_entry` to the log and tells where it lies.
    /// The index is left alone. Nothing changes where the record cannot be
    /// encoded.
    pub fn save_log_entry(&mut self, log_entry: &LogEntry) -> (out: Result<LogPosition, KvsError>)
        requires
            old(self).wf(),
        ensures
            final(self).wf(),
            match record_bytes(log_entry@) {
                Some(record) => out == Ok::<LogPosition, KvsError>(
                    LogPosition { start: old(self)@.end, len: record.len() as u64 },
                ) && final(self)@ == old(self)@.appended(record)
                    && old(self)@.log.len() + record.len() <= u64::MAX,
                None => out matches Err(KvsError::SerdeError(_)) && final(self)@ == old(self)@,
            },
    {
        let record = match encode_entry(log_entry) {
            Ok(record) => record,
            Err(e) => { return Err(e); },
        };
        let start: u64 = self.metadata.cur_file_end;
        self.log.extend_from_slice(record.as_slice());
        let end: usize = self.log.len();
        self.metadata.cur_file_end = end as u64;
        if self.metadata.since_last_compact_log_num < u64::MAX {
            self.metadata.since_last_compact_log_num = self.metadata.since_last_compact_log_num + 1;
        }
        assert(self@.log == old(self)@.log + record@);
        assert(self@ == old(self)@.appended(record@));
        Ok(LogPosition { start, len: record.len() as u64 })
    }
    /// Rewrites the log so that it holds one fresh `Set` record for each live
    /// key and nothing else, and points the index at the fresh records. Each
    /// fresh record holds the value that was read for its key just before.
    /// Where a record cannot be read or rewritten, nothing changes.
    pub fn compact(&mut self) -> (out: Result<(), KvsError>)
        requires
            old(self).wf(),
        ensures
            final(self).wf(),
            match old(self)@.compacted() {
                Some(after) => out is Ok && final(self)@ == after,
                None => out matches Err(e) && old(self)@.compaction_error_is(e) && final(self)@
                    == old(self)@,
            },
            out is Ok ==> forall|i: int| 0 <= i < old(self)@.entries.len() ==> record_at(
                final(self)@.log,
                (#[trigger] final(self)@.entries[i]).1,
            ) == rewritten(old(self)@.log, old(self)@.entries[i]).unwrap(),
    {
        let ghost log = self@.log;
        let ghost entries = self@.entries;
        let n: usize = self.store_map.len();
        let mut buffer: Vec<u8> = Vec::new();
        let mut slots: Vec<Slot> = Vec::new();
        let mut i: usize = 0;
        while i < n
            invariant
                self.wf(),
                self@ == old(self)@,
                log == self@.log,
                entries == self@.entries,
                n == entries.len(),
                i <= n,
                slots@.len() == i,
                compacted_log(log, entries, i as nat) == Some(buffer@),
                first_unwritable(log, entries, i as nat) is None,
                forall|j: int| 0 <= j < i ==> (#[trigger] slots@[j]).key@ == entries[j].0 && slots@[j].pos
                    == compacted_position(log, entries, j),
                forall|j: int| 0 <= j < i ==> (#[trigger] slots@[j]).pos.end() <= buffer@.len()
                    && record_at(buffer@, slots@[j].pos) == rewritten(log, entries[j]).unwrap(),
            decreases n - i,
        {
            let key = self.store_map.key_at(i).clone();
            let pos = self.store_map.position_at(i);
            let value = match self.read_at(pos) {
                Ok(value) => value,
                Err(e) => {
                    proof {
                        assert(compacted_log(log, entries, (i + 1) as nat) is None);
                        assert(first_unwritable(log, entries, (i + 1) as nat) == Some(i as int));
                        lemma_compaction_fails_on(log, entries, (i + 1) as nat, n as nat);
                        lemma_first_unwritable_stays(log, entries, (i + 1) as nat, n as nat);
                    }
                    return Err(e);
                },
            };
            let entry = LogEntry::SetKey { key: key.clone(), value };
            let record = match encode_entry(&entry) {
                Ok(record) => record,
                Err(e) => {
                    proof {
                        assert(compacted_log(log, entries, (i + 1) as nat) is None);
                        assert(first_unwritable(log, entries, (i + 1) as nat) == Some(i as int));
                        lemma_compaction_fails_on(log, entries, (i + 1) as nat, n as nat);
                        lemma_first_unwritable_stays(log, entries, (i + 1) as nat, n as nat);
                    }
                    return Err(e);
                },
            };
            let ghost before = buffer@;
            let start: usize = buffer.len();
            buffer.extend_from_slice(record.as_slice());
            let end: usize = buffer.len();
            let fresh = LogPosition { start: start as u64, len: record.len() as u64 };
            slots.push(Slot { key, pos: fresh });
            proof {
                assert(rewritten(log, entries[i as int]) == Some(record@));
                assert(compacted_log(log, entries, (i + 1) as nat) == Some(buffer@));
                assert(first_unwritable(log, entries, (i + 1) as nat) is None);
                assert(record_at(buffer@, fresh) =~= record@);
                assert forall|j: int| 0 <= j < i implies record_at(buffer@, (#[trigger] slots@[j]).pos)
                    == rewritten(log, entries[j]).unwrap() by {
                    assert(record_at(buffer@, slots@[j].pos) =~= record_at(before, slots@[j].pos));
                }
            }
            i = i + 1;
        }
        self.store_map = Index { slots };
        self.log = buffer;
        self.metadata.cur_file_end = self.log.len() as u64;
        self.metadata.since_last_compact_log_num = 0;
        proof {
            let after = old(self)@.compacted().unwrap();
            assert(self@.entries =~= after.entries);
            assert(self@ == after);
            assert forall|a: int, b: int| 0 <= a < b < self@.entries.len() implies (#[trigger] self@.entries[a]).0
                != (#[trigger] self@.entries[b]).0 by {
                assert(entries[a].0 != entries[b].0);
            }
        }
        Ok(())
    }

    /// Binds `value` to `key`: appends a `Set` record, points the index at
    /// it, and compacts the log where more than `COMPACT_NUM_THRESHOLD`
    /// records were appended since the last compaction.
    pub fn set(&mut self, key: String, value: String) -> (out: Result<(), KvsError>)
        requires
            old(self).wf(),
        ensures
            final(self).wf(),
            write_result_is(
                out,
                old(self)@,
                match record_bytes(LogEntryView::SetKey { key: key@, value: value@ }) {
                    Some(record) => Some(old(self)@.after_set(key@, record)),
                    None => None,
                },
                final(self)@,
            ),
    {
        let entry = LogEntry::SetKey { key: key.clone(), value };
        let pos = match self.save_log_entry(&entry) {
            Ok(pos) => pos,
            Err(e) => { return Err(e); },
        };
        let ghost before = self@.entries;
        self.store_map.insert(key, pos);
        proof {
            assert forall|i: int| 0 <= i < self@.entries.len() implies (#[trigger] self@.entries[i]).1.end()
                <= self@.log.len() by {
                if has_key(before, key@) && i != slot_of(before, key@) {
                    assert(self@.entries[i] == before[i]);
                } else if !has_key(before, key@) && i < before.len() {
                    assert(self@.entries[i] == before[i]);
                }
            }
            assert(self@ == old(self)@.after_set(key@, record_bytes(entry@).unwrap()));
        }
        if self.metadata.since_last_compact_log_num > COMPACT_NUM_THRESHOLD {
            return self.compact();
        }
        Ok(())
    }

    /// Unbinds `key`. A key that is not live is refused with `KeyNotFound`,
    /// and nothing is appended. Else the key leaves the index, a `Rm` record
    /// is appended, and the log is compacted where the threshold calls for
    /// it.
    pub fn remove(&mut self, key: String) -> (out: Result<(), KvsError>)
        requires
            old(self).wf(),
        ensures
            final(self).wf(),
            if !old(self)@.index().contains_key(key@) {
                out matches Err(KvsError::KeyNotFound(name)) && name@ == key@ && final(self)@ == old(self)@
            } else {
                write_result_is(
                    out,
                    old(self)@,
                    match record_bytes(LogEntryView::Rm { key: key@ }) {
                        Some(record) => Some(old(self)@.after_remove(key@, record)),
                        None => None,
                    },
                    final(self)@,
                )
            },
    {
        if !self.store_map.contains_key(&key) {
            return Err(KvsError::KeyNotFound(key));
        }
        let entry = LogEntry::Rm { key: key.clone() };
        match self.save_log_entry(&entry) {
            Ok(_) => {},
            Err(e) => { return Err(e); },
        }
        let ghost before = self@.entries;
        self.store_map.remove(&key);
        proof {
            let at = slot_of(before, key@);
            assert forall|i: int| 0 <= i < self@.entries.len() implies (#[trigger] self@.entries[i]).1.end()
                <= self@.log.len() by {
                assert(self@.entries[i] == before[if i < at { i } else { i + 1 }]);
            }
            assert(self@ == old(self)@.after_remove(key@, record_bytes(entry@).unwrap()));
        }
        if self.metadata.since_last_compact_log_num > COMPACT_NUM_THRESHOLD {
            return self.compact();
        }
        Ok(())
    }
}

/// What an operation leaves to be put on disk.
#[derive(Clone, Copy, Debug, PartialEq, Eq, Structural)]
pub enum Persist {
    /// The log is as it was: nothing is to be written.
    Nothing,
    /// The log grew: its bytes from offset `from` on are to be appended to
    /// the active log file, and the metadata is to be saved.
    Append { from: usize },
    /// The log was compacted: the active log file is to be replaced by the
    /// whole log, and the metadata is to be saved.
    Rewrite,
}

/// What is to be put on disk after an operation that found a log of `before`
/// bytes, left the store `after` and succeeded or not. Only compaction ends
/// an operation that succeeded with no record counted as appended.
pub open spec fn persist_plan(after: StoreState, before: usize, succeeded: bool) -> Persist {
    if succeeded && after.count == 0 {
        Persist::Rewrite
    } else if before < after.log.len() {
        Persist::Append { from: before }
    } else {
        Persist::Nothing
    }
}

/// The slots after the record `entry`, found at `pos`, was replayed: a `Set`
/// record binds its key to `pos`, a `Rm` record unbinds its key.
pub open spec fn replayed(entries: Seq<(Seq<char>, LogPosition)>, entry: LogEntryView, pos: LogPosition) -> Seq<(Seq<char>, LogPosition)> {
    match entry {
        LogEntryView::SetKey { key, value } => bound(entries, key, pos),
        LogEntryView::Rm { key } => unbound(entries, key),
    }
}

/// The slots that replaying the log from offset `pos` on leaves, starting
/// from `entries`. Each record's position runs from the end of the record
/// before it to its own end. `None` where the log holds anything but records
/// up to its end.
pub open spec fn scanned(log: Seq<u8>, pos: nat, entries: Seq<(Seq<char>, LogPosition)>) -> Option<Seq<(Seq<char>, LogPosition)>>
    decreases log.len() - pos,
{
    if pos > log.len() {
        None
    } else {
        match stream_front(log.skip(pos as int)) {
            None => Some(entries),
            Some(None) => None,
            Some(Some((entry, used))) => if 0 < used && pos + used <= log.len() {
                scanned(
                    log,
                    pos + used,
                    replayed(entries, entry, LogPosition { start: pos as u64, len: used as u64 }),
                )
            } else {
                None
            },
        }
    }
}

/// Rebuilds the index by replaying the log from its first byte. A log that
/// holds anything but records up to its end is refused with `RecordError`.
pub fn rebuild_map(log: &Vec<u8>) -> (out: Result<Index, KvsError>)
    ensures
        match scanned(log@, 0, Seq::empty()) {
            Some(entries) => out matches Ok(index) && index.wf() && index.entries() == entries
                && forall|i: int| 0 <= i < entries.len() ==> (#[trigger] entries[i]).1.end() <= log@.len(),
            None => out matches Err(KvsError::RecordError()),
        },
{
    let mut index = Index::new();
    let size: usize = log.len();
    let mut pos: usize = 0;
    loop
        invariant
            size == log@.len(),
            pos <= size,
            index.wf(),
            forall|i: int| 0 <= i < index.entries().len() ==> (#[trigger] index.entries()[i]).1.end() <= size,
            scanned(log@, 0, Seq::empty()) == scanned(log@, pos as nat, index.entries()),
        decreases size - pos,
    {
        let rest = slice_subrange(log.as_slice(), pos, size);
        assert(rest@ =~= log@.skip(pos as int));
        match decode_stream_front(rest) {
            None => {
                return Ok(index);
            },
            Some(Err(_)) => {
                return Err(KvsError::RecordError());
            },
            Some(Ok((entry, used))) => {
                let at = LogPosition { start: pos as u64, len: used as u64 };
                let ghost before = index.entries();
                match entry {
                    LogEntry::SetKey { key, value: _ } => {
                        index.insert(key, at);
                        proof {
                            assert forall|i: int| 0 <= i < index.entries().len() implies (#[trigger] index.entries()[i]).1.end()
                                <= size by {
                                if has_key(before, key@) && i != slot_of(before, key@) {
                                    assert(index.entries()[i] == before[i]);
                                } else if !has_key(before, key@) && i < before.len() {
                                    assert(index.entries()[i] == before[i]);
                                }
                            }
                        }
                    },
                    LogEntry::Rm { key } => {
                        index.remove(&key);
                        proof {
                            let gone = slot_of(before, key@);
                            assert forall|i: int| 0 <= i < index.entries().len() implies (#[trigger] index.entries()[i]).1.end()
                                <= size by {
                                if has_key(before, key@) {
                                    assert(index.entries()[i] == before[if i < gone { i } else { i + 1 }]);
                                }
                            }
                        }
                    },
                }
                pos = pos + used;
            },
        }
    }
}

/// A handle on the engine's state.
#[derive(Debug)]
pub struct KvStore {
    pub data: MutableKvsData,
}

impl View for KvStore {
    type V = StoreState;

    open spec fn view(&self) -> StoreState {
        self.data@
    }
}

impl KvStore {
    /// The store's invariant.
    pub open spec fn wf(&self) -> bool {
        self.data.wf()
    }

    /// A store without records at `path`.
    pub fn new(path: String) -> (store: KvStore)
        ensures
            store.wf(),
            store@ == StoreState::empty(path@),
    {
        let metadata = MetaData { store_path: path, cur_file_end: 0, since_last_compact_log_num: 0 };
        let store = KvStore { data: MutableKvsData { metadata, store_map: Index::new(), log: Vec::new() } };
        assert(store@.log =~= Seq::<u8>::empty());
        store
    }

    /// A store made of the given metadata, index and log. They are refused
    /// with `RecordError` unless the metadata records the length of the log
    /// as its end and every indexed position lies inside the log.
    pub fn new_with_data(metadata: MetaData, store_map: Index, log: Vec<u8>) -> (out: Result<KvStore, KvsError>)
        requires
            store_map.wf(),
        ensures
            ({
                let given = StoreState {
                    path: metadata.store_path@,
                    end: metadata.cur_file_end,
                    count: metadata.since_last_compact_log_num,
                    entries: store_map.entries(),
                    log: log@,
                };
                match out {
                    Ok(store) => given.wf() && store.wf() && store@ == given,
                    Err(e) => !given.wf() && e matches KvsError::RecordError(),
                }
            }),
    {
        let size: usize = log.len();
        if metadata.cur_file_end != size as u64 {
            return Err(KvsError::RecordError());
        }
        let n: usize = store_map.len();
        let mut i: usize = 0;
        while i < n
            invariant
                n == store_map.entries().len(),
                size == log@.len(),
                i <= n,
                forall|j: int| 0 <= j < i ==> (#[trigger] store_map.entries()[j]).1.end() <= size,
            decreases n - i,
        {
            let pos = store_map.position_at(i);
            if pos.start > size as u64 || pos.len > size as u64 - pos.start {
                return Err(KvsError::RecordError());
            }
            i = i + 1;
        }
        Ok(KvStore { data: MutableKvsData { metadata, store_map, log } })
    }

    /// Opens a store from what was found at `path`: the metadata, or nothing
    /// where the metadata file is missing or empty, and the bytes of the
    /// active log. Without metadata the store is empty. Else the index is
    /// rebuilt from the log, and the log is refused with `RecordError` where
    /// it holds anything but records or its length is not the recorded end.
    pub fn open(path: String, metadata: Option<MetaData>, log: Vec<u8>) -> (out: Result<KvStore, KvsError>)
        ensures
            match metadata {
                None => out matches Ok(store) && store.wf() && store@ == StoreState::empty(path@),
                Some(found) => match scanned(log@, 0, Seq::empty()) {
                    Some(entries) if found.cur_file_end == log@.len() => out matches Ok(store) && store.wf()
                        && store@ == (StoreState {
                        path: found.store_path@,
                        end: found.cur_file_end,
                        count: found.since_last_compact_log_num,
                        entries,
                        log: log@,
                    }),
                    _ => out matches Err(KvsError::RecordError()),
                },
            },
    {
        match metadata {
            None => Ok(KvStore::new(path)),
            Some(found) => {
                let store_map = match rebuild_map(&log) {
                    Ok(store_map) => store_map,
                    Err(e) => { return Err(e); },
                };
                KvStore::new_with_data(found, store_map, log)
            },
        }
    }

    /// Binds `value` to `key`.
    pub fn set(&mut self, key: String, value: String) -> (out: Result<(), KvsError>)
        requires
            old(self).wf(),
        ensures
            final(self).wf(),
            write_result_is(
                out,
                old(self)@,
                match record_bytes(LogEntryView::SetKey { key: key@, value: value@ }) {
                    Some(record) => Some(old(self)@.after_set(key@, record)),
                    None => None,
                },
                final(self)@,
            ),
    {
        self.data.set(key, value)
    }

    /// The value bound to `key`, if there is one.
    pub fn get(&self, key: String) -> (out: Result<Option<String>, KvsError>)
        requires
            self.wf(),
        ensures
            get_result_is(out, self@.answer(key@)),
    {
        self.data.get(key)
    }

    /// Unbinds `key`; a key that is not bound is refused with `KeyNotFound`.
    pub fn remove(&mut self, key: String) -> (out: Result<(), KvsError>)
        requires
            old(self).wf(),
        ensures
            final(self).wf(),
            if !old(self)@.index().contains_key(key@) {
                out matches Err(KvsError::KeyNotFound(name)) && name@ == key@ && final(self)@ == old(self)@
            } else {
                write_result_is(
                    out,
                    old(self)@,
                    match record_bytes(LogEntryView::Rm { key: key@ }) {
                        Some(record) => Some(old(self)@.after_remove(key@, record)),
                        None => None,
                    },
                    final(self)@,
                )
            },
    {
        self.data.remove(key)
    }

    /// What is to be put on disk after a `set` or a `remove` that found a
    /// log of `before` bytes and succeeded or not.
    pub fn persist(&self, before: usize, succeeded: bool) -> (plan: Persist)
        ensures
            plan == persist_plan(self@, before, succeeded),
    {
        if succeeded && self.data.metadata.since_last_compact_log_num == 0 {
            Persist::Rewrite
        } else if before < self.data.log.len() {
            Persist::Append { from: before }
        } else {
            Persist::Nothing
        }
    }

    /// The metadata as it stands after the last operation.
    pub fn metadata(&self) -> (metadata: &MetaData)
        ensures
            metadata == self.data.metadata,
    {
        &self.data.metadata
    }

    /// The bytes of the active log as they stand after the last operation.
    pub fn log(&self) -> (log: &Vec<u8>)
        ensures
            log@ == self@.log,
    {
        &self.data.log
    }

    /// The number of live keys.
    pub fn len(&self) -> (n: usize)
        ensures
            n == self@.entries.len(),
    {
        self.data.store_map.len()
    }
}

} // verus!
