//! What holds of the engine over whole runs of operations, proved from the
//! definitions that the contracts of `set`, `get`, `remove` and `compact`
//! are stated in.

use vstd::prelude::*;
use crate::codec::{
    json_text, record_bytes, record_tail, rm_head, set_head, stream_front, value_head, LogEntryView,
};
use crate::index::{
    has_key, lemma_map_at, lemma_map_push, lemma_map_remove, lemma_map_update, slot_of, LogPosition,
};
use crate::error::KvsError;
use crate::kvs_engine::{
    bumped, compacted_log, compacted_position, persist_plan, reading, record_at, replayed, rewritten,
    scanned, write_result_is, Persist, Reading, StoreState, COMPACT_NUM_THRESHOLD,
};

verus! {

/// What one operation, given as the record it appends, makes of a store in
/// which no compaction falls due. A `Set` whose record cannot be encoded and
/// a `Rm` of a key that is not live, or whose record cannot be encoded, leave
/// the store as it is.
pub open spec fn applied(store: StoreState, op: LogEntryView) -> StoreState {
    match record_bytes(op) {
        None => store,
        Some(record) => match op {
            LogEntryView::SetKey { key, value } => store.after_set(key, record),
            LogEntryView::Rm { key } => if store.index().contains_key(key) {
                store.after_remove(key, record)
            } else {
                store
            },
        },
    }
}

/// The store after a run of operations, none of which compacts.
pub open spec fn run(store: StoreState, ops: Seq<LogEntryView>) -> StoreState
    decreases ops.len(),
{
    if ops.len() == 0 {
        store
    } else {
        applied(run(store, ops.drop_last()), ops.last())
    }
}

/// What `get` owes for `key` after a run of operations: what reading the
/// record of the last `Set` of the key gives, unless a `Rm` of the key came
/// after it; what the store answered at the start where the run never
/// touched the key. Operations whose record cannot be encoded do not count.
pub open spec fn last_write(store: StoreState, ops: Seq<LogEntryView>, key: Seq<char>) -> Option<Reading>
    decreases ops.len(),
{
    if ops.len() == 0 {
        store.answer(key)
    } else {
        let earlier = last_write(store, ops.drop_last(), key);
        match record_bytes(ops.last()) {
            None => earlier,
            Some(record) => if ops.last().key() != key {
                earlier
            } else {
                match ops.last() {
                    LogEntryView::SetKey { .. } => Some(reading(record)),
                    LogEntryView::Rm { .. } => None,
                }
            },
        }
    }
}

/// A live key's position is that of one of the slots, so it lies inside the
/// log of a well-formed store.
pub proof fn lemma_live_position(store: StoreState, key: Seq<char>)
    requires
        store.wf(),
        store.index().contains_key(key),
    ensures
        store.index()[key].end() <= store.log.len(),
{
    let i = slot_of(store.entries, key);
    assert(store.entries[i].0 == key);
}

/// `set` then `get`: after a `Set` record was appended and indexed, the key
/// answers with what reading that record gives, every other key answers as
/// before, and the store is well-formed.
pub proof fn lemma_set_then_get(store: StoreState, key: Seq<char>, record: Seq<u8>, other: Seq<char>)
    requires
        store.wf(),
        store.log.len() + record.len() <= u64::MAX,
    ensures
        store.after_set(key, record).wf(),
        store.after_set(key, record).index() == store.index().insert(
            key,
            LogPosition { start: store.end, len: record.len() as u64 },
        ),
        store.after_set(key, record).answer(key) == Some(reading(record)),
        other != key ==> store.after_set(key, record).answer(other) == store.answer(other),
{
    let after = store.after_set(key, record);
    let pos = LogPosition { start: store.end, len: record.len() as u64 };
    if has_key(store.entries, key) {
        let i = slot_of(store.entries, key);
        lemma_map_update(store.entries, i, pos);
        assert forall|j: int| 0 <= j < after.entries.len() implies (#[trigger] after.entries[j]).1.end()
            <= after.log.len() by {
            if j != i {
                assert(after.entries[j] == store.entries[j]);
            }
        }
    } else {
        lemma_map_push(store.entries, key, pos);
        assert forall|j: int| 0 <= j < after.entries.len() implies (#[trigger] after.entries[j]).1.end()
            <= after.log.len() by {
            if j < store.entries.len() {
                assert(after.entries[j] == store.entries[j]);
            }
        }
    }
    assert(record_at(after.log, pos) =~= record);
    if other != key && store.index().contains_key(other) {
        lemma_live_position(store, other);
        assert(record_at(after.log, store.index()[other]) =~= record_at(store.log, store.index()[other]));
    }
}

/// `remove` then `get`: after a live key left the index and its `Rm` record
/// was appended, the key has no answer, every other key answers as before,
/// and the store is well-formed.
pub proof fn lemma_remove_then_get(store: StoreState, key: Seq<char>, record: Seq<u8>, other: Seq<char>)
    requires
        store.wf(),
        store.index().contains_key(key),
        store.log.len() + record.len() <= u64::MAX,
    ensures
        store.after_remove(key, record).wf(),
        store.after_remove(key, record).index() == store.index().remove(key),
        store.after_remove(key, record).answer(key) is None,
        other != key ==> store.after_remove(key, record).answer(other) == store.answer(other),
{
    let after = store.after_remove(key, record);
    let i = slot_of(store.entries, key);
    lemma_map_remove(store.entries, i);
    assert forall|j: int| 0 <= j < after.entries.len() implies (#[trigger] after.entries[j]).1.end()
        <= after.log.len() by {
        assert(after.entries[j] == store.entries[if j < i { j } else { j + 1 }]);
    }
    if other != key && store.index().contains_key(other) {
        lemma_live_position(store, other);
        assert(record_at(after.log, store.index()[other]) =~= record_at(store.log, store.index()[other]));
    }
}

/// Last write wins: after any run of `set` and `remove` in which no
/// compaction falls due, `get` of any key answers with what reading the
/// record of the key's last `Set` gives, or with nothing where a `Rm` of the
/// key came after it; and the store is well-formed at the end.
pub proof fn lemma_last_write_wins(store: StoreState, ops: Seq<LogEntryView>, key: Seq<char>)
    requires
        store.wf(),
        run(store, ops).log.len() <= u64::MAX,
    ensures
        run(store, ops).wf(),
        run(store, ops).answer(key) == last_write(store, ops, key),
    decreases ops.len(),
{
    if ops.len() > 0 {
        let before = run(store, ops.drop_last());
        let op = ops.last();
        assert(before.log.len() <= applied(before, op).log.len());
        lemma_last_write_wins(store, ops.drop_last(), key);
        match record_bytes(op) {
            None => {},
            Some(record) => match op {
                LogEntryView::SetKey { key: written, value } => {
                    lemma_set_then_get(before, written, record, key);
                },
                LogEntryView::Rm { key: removed } => {
                    if before.index().contains_key(removed) {
                        lemma_remove_then_get(before, removed, record, key);
                    }
                },
            },
        }
    }
}

/// `set` is idempotent: binding the same value to the same key twice leaves
/// every key with the answer that binding it once leaves. The log may have
/// grown.
pub proof fn lemma_set_twice(store: StoreState, key: Seq<char>, record: Seq<u8>, other: Seq<char>)
    requires
        store.wf(),
        store.log.len() + record.len() + record.len() <= u64::MAX,
    ensures
        store.after_set(key, record).after_set(key, record).wf(),
        store.after_set(key, record).after_set(key, record).answer(other) == store.after_set(
            key,
            record,
        ).answer(other),
        store.after_set(key, record).after_set(key, record).index().dom() == store.after_set(
            key,
            record,
        ).index().dom(),
{
    let once = store.after_set(key, record);
    lemma_set_then_get(store, key, record, other);
    lemma_set_then_get(once, key, record, other);
    assert(once.index().insert(key, LogPosition { start: once.end, len: record.len() as u64 }).dom()
        =~= once.index().dom());
}

/// The compacted log of the first `i` slots is the front of the compacted
/// log of the first `n` slots, and slot `i` has a fresh record that follows
/// it there.
pub proof fn lemma_compacted_front(log: Seq<u8>, entries: Seq<(Seq<char>, LogPosition)>, i: nat, n: nat)
    requires
        i < n,
        compacted_log(log, entries, n) is Some,
    ensures
        compacted_log(log, entries, i) is Some,
        rewritten(log, entries[i as int]) is Some,
        compacted_log(log, entries, i).unwrap().len() + rewritten(log, entries[i as int]).unwrap().len()
            <= compacted_log(log, entries, n).unwrap().len(),
        compacted_log(log, entries, n).unwrap().subrange(
            compacted_log(log, entries, i).unwrap().len() as int,
            (compacted_log(log, entries, i).unwrap().len() + rewritten(log, entries[i as int]).unwrap().len()) as int,
        ) == rewritten(log, entries[i as int]).unwrap(),
    decreases n,
{
    let whole = compacted_log(log, entries, n).unwrap();
    let front = compacted_log(log, entries, (n - 1) as nat).unwrap();
    let last = rewritten(log, entries[n - 1]).unwrap();
    assert(whole == front + last);
    if i == n - 1 {
        assert(whole.subrange(front.len() as int, (front.len() + last.len()) as int) =~= last);
    } else {
        lemma_compacted_front(log, entries, i, (n - 1) as nat);
        let start = compacted_log(log, entries, i).unwrap().len() as int;
        let len = rewritten(log, entries[i as int]).unwrap().len();
        assert(whole.subrange(start, start + len) =~= front.subrange(start, start + len));
    }
}

/// Compaction keeps the store well-formed, keeps the live keys, and leaves
/// each of them with the fresh `Set` record of the value that `get` returned
/// for it just before: the value read is the value that is written back.
pub proof fn lemma_compaction_keeps(store: StoreState, key: Seq<char>)
    requires
        store.wf(),
        store.compacted() is Some,
        store.compacted().unwrap().log.len() <= u64::MAX,
    ensures
        store.compacted().unwrap().wf(),
        store.compacted().unwrap().index().dom() == store.index().dom(),
        store.index().contains_key(key) ==> match store.answer(key) {
            Some(Reading::Value(value)) => record_bytes(LogEntryView::SetKey { key, value }) is Some
                && store.compacted().unwrap().records()[key] == record_bytes(
                LogEntryView::SetKey { key, value },
            ).unwrap() && store.compacted().unwrap().answer(key) == Some(
                reading(record_bytes(LogEntryView::SetKey { key, value }).unwrap()),
            ),
            _ => false,
        },
{
    let after = store.compacted().unwrap();
    let n = store.entries.len();
    assert forall|i: int| 0 <= i < n implies (#[trigger] after.entries[i]).1.end() <= after.log.len()
        && record_at(after.log, after.entries[i].1) == rewritten(store.log, store.entries[i]).unwrap()
        && rewritten(store.log, store.entries[i]) is Some by {
        lemma_compacted_front(store.log, store.entries, i as nat, n);
        assert(after.entries[i].1 == compacted_position(store.log, store.entries, i));
    }
    assert forall|a: int, b: int| 0 <= a < b < after.entries.len() implies (#[trigger] after.entries[a]).0
        != (#[trigger] after.entries[b]).0 by {
        assert(store.entries[a].0 != store.entries[b].0);
    }
    assert forall|k: Seq<char>| has_key(after.entries, k) == has_key(store.entries, k) by {
        if has_key(after.entries, k) {
            let i = slot_of(after.entries, k);
            assert(store.entries[i].0 == k);
        }
        if has_key(store.entries, k) {
            let i = slot_of(store.entries, k);
            assert(after.entries[i].0 == k);
        }
    }
    assert(after.index().dom() =~= store.index().dom());
    if store.index().contains_key(key) {
        let i = slot_of(store.entries, key);
        assert(store.entries[i].0 == key);
        lemma_map_at(store.entries, i);
        assert(after.entries[i].0 == key);
        lemma_map_at(after.entries, i);
        assert(after.entries[i].1.end() <= after.log.len());
    }
}

/// Whether the fresh `Set` record of a key and a value reads back as that
/// value.
pub open spec fn reads_back(key: Seq<char>, value: Seq<char>) -> bool {
    match record_bytes(LogEntryView::SetKey { key, value }) {
        Some(record) => reading(record) == Reading::Value(value),
        None => false,
    }
}

/// Where the fresh record of a live key's value reads back as that value,
/// `get` answers for the key after compaction as it did before.
pub proof fn lemma_compaction_keeps_answers(store: StoreState, key: Seq<char>)
    requires
        store.wf(),
        store.compacted() is Some,
        store.compacted().unwrap().log.len() <= u64::MAX,
        store.index().contains_key(key),
        match store.answer(key) {
            Some(Reading::Value(value)) => reads_back(key, value),
            _ => true,
        },
    ensures
        store.compacted().unwrap().answer(key) == store.answer(key),
{
    lemma_compaction_keeps(store, key);
}

/// What `persist` plans after a `set` or a `remove` is what the operation
/// did to the log: after compaction the whole compacted log is to be
/// written; after an append without compaction the plan is to append the
/// new record, which is the log from its former end on; and where the
/// operation changed nothing, nothing is to be written.
pub proof fn lemma_persist_plan(
    before: StoreState,
    found: usize,
    record: Seq<u8>,
    mid: StoreState,
    out: Result<(), KvsError>,
    after: StoreState,
)
    requires
        before.wf(),
        found == before.log.len(),
        record.len() > 0,
        mid.log == before.log + record,
        mid.count == bumped(before.count),
        write_result_is(out, before, Some(mid), after) || write_result_is(out, before, None, after),
    ensures
        match persist_plan(after, found, out is Ok) {
            Persist::Rewrite => out is Ok && mid.count > COMPACT_NUM_THRESHOLD && Some(after) == mid.compacted(),
            Persist::Append { from } => from == found && after == mid && after.log.subrange(
                from as int,
                after.log.len() as int,
            ) == record,
            Persist::Nothing => out is Err && after == before,
        },
{
    if after == mid {
        assert(after.log.subrange(before.log.len() as int, after.log.len() as int) =~= record);
    }
}

/// The length of the fresh records of the first `n` slots, added up.
pub open spec fn rewritten_size(log: Seq<u8>, entries: Seq<(Seq<char>, LogPosition)>, n: nat) -> nat
    decreases n,
{
    if n == 0 {
        0
    } else {
        rewritten_size(log, entries, (n - 1) as nat) + match rewritten(log, entries[n - 1]) {
            Some(record) => record.len(),
            None => 0,
        }
    }
}

/// Compaction reclaims space: the compacted log is as long as the fresh
/// records of the live keys together, whatever was appended before.
pub proof fn lemma_compacted_size(log: Seq<u8>, entries: Seq<(Seq<char>, LogPosition)>, n: nat)
    requires
        compacted_log(log, entries, n) is Some,
    ensures
        compacted_log(log, entries, n).unwrap().len() == rewritten_size(log, entries, n),
    decreases n,
{
    if n > 0 {
        lemma_compacted_size(log, entries, (n - 1) as nat);
    }
}

/// A fresh `Set` record is 25 bytes longer than the JSON strings of its key
/// and its value together.
pub proof fn lemma_set_record_size(key: Seq<char>, value: Seq<char>)
    requires
        record_bytes(LogEntryView::SetKey { key, value }) is Some,
    ensures
        record_bytes(LogEntryView::SetKey { key, value }).unwrap().len() == 25 + json_text(key).unwrap().len()
            + json_text(value).unwrap().len(),
{
    assert(set_head().len() == 14);
    assert(value_head().len() == 9);
    assert(record_tail().len() == 2);
}

/// After the check that ends `set` and `remove` succeeded, no more than
/// `COMPACT_NUM_THRESHOLD` records were appended since the last compaction.
pub proof fn lemma_settled_count(store: StoreState)
    requires
        store.settled() is Some,
    ensures
        store.settled().unwrap().count <= COMPACT_NUM_THRESHOLD,
{
}

/// Whether `serde_json` reads a stream of records back as it was written:
/// nothing from an empty stream, and from a stream that begins with the
/// bytes of a record that record, taking exactly its bytes.
pub open spec fn stream_reads_back() -> bool {
    &&& stream_front(Seq::<u8>::empty()) is None
    &&& forall|entry: LogEntryView, rest: Seq<u8>|
        record_bytes(entry) is Some ==> #[trigger] stream_front(record_bytes(entry).unwrap() + rest) == Some(
            Some((entry, record_bytes(entry).unwrap().len())),
        )
}

/// Every record of the journal can be encoded.
pub open spec fn encodable(journal: Seq<LogEntryView>) -> bool {
    forall|i: int| 0 <= i < journal.len() ==> record_bytes(#[trigger] journal[i]) is Some
}

/// The log that holds the records of a journal back to back.
pub open spec fn journal_bytes(journal: Seq<LogEntryView>) -> Seq<u8>
    decreases journal.len(),
{
    if journal.len() == 0 {
        Seq::empty()
    } else {
        journal_bytes(journal.drop_last()) + record_bytes(journal.last()).unwrap()
    }
}

/// The slots that the records of a journal leave when each is indexed where
/// it lies in the journal's log.
pub open spec fn journal_entries(journal: Seq<LogEntryView>) -> Seq<(Seq<char>, LogPosition)>
    decreases journal.len(),
{
    if journal.len() == 0 {
        Seq::empty()
    } else {
        replayed(
            journal_entries(journal.drop_last()),
            journal.last(),
            LogPosition {
                start: journal_bytes(journal.drop_last()).len() as u64,
                len: record_bytes(journal.last()).unwrap().len() as u64,
            },
        )
    }
}

/// The store's log holds the records of `journal` and nothing else, and its
/// index is what these records leave.
pub open spec fn written_as(store: StoreState, journal: Seq<LogEntryView>) -> bool {
    &&& encodable(journal)
    &&& store.log == journal_bytes(journal)
    &&& store.entries == journal_entries(journal)
}

/// The value that compaction reads for a slot.
pub open spec fn value_read_at(log: Seq<u8>, slot: (Seq<char>, LogPosition)) -> Seq<char> {
    match reading(record_at(log, slot.1)) {
        Reading::Value(value) => value,
        _ => Seq::empty(),
    }
}

/// The records that compaction writes: one `Set` for each slot, in order.
pub open spec fn compacted_journal(store: StoreState) -> Seq<LogEntryView> {
    Seq::new(
        store.entries.len(),
        |i: int| LogEntryView::SetKey { key: store.entries[i].0, value: value_read_at(store.log, store.entries[i]) },
    )
}

/// A record has at least one byte.
pub proof fn lemma_record_not_empty(entry: LogEntryView)
    requires
        record_bytes(entry) is Some,
    ensures
        record_bytes(entry).unwrap().len() > 0,
{
    assert(set_head().len() == 14);
    assert(rm_head().len() == 13);
}

/// An empty store is written as the empty journal.
pub proof fn lemma_journal_empty(path: Seq<char>)
    ensures
        written_as(StoreState::empty(path), Seq::empty()),
{
}

/// `set` adds its `Set` record to the journal.
pub proof fn lemma_journal_set(store: StoreState, journal: Seq<LogEntryView>, key: Seq<char>, value: Seq<char>)
    requires
        store.wf(),
        written_as(store, journal),
        record_bytes(LogEntryView::SetKey { key, value }) is Some,
    ensures
        written_as(
            store.after_set(key, record_bytes(LogEntryView::SetKey { key, value }).unwrap()),
            journal.push(LogEntryView::SetKey { key, value }),
        ),
{
    let longer = journal.push(LogEntryView::SetKey { key, value });
    assert(longer.drop_last() =~= journal);
}

/// `remove` of a live key adds its `Rm` record to the journal.
pub proof fn lemma_journal_remove(store: StoreState, journal: Seq<LogEntryView>, key: Seq<char>)
    requires
        store.wf(),
        written_as(store, journal),
        record_bytes(LogEntryView::Rm { key }) is Some,
    ensures
        written_as(
            store.after_remove(key, record_bytes(LogEntryView::Rm { key }).unwrap()),
            journal.push(LogEntryView::Rm { key }),
        ),
{
    let longer = journal.push(LogEntryView::Rm { key });
    assert(longer.drop_last() =~= journal);
}

/// The first `i` records that compaction writes make up the compacted log of
/// the first `i` slots and leave these slots, each at its new position.
pub proof fn lemma_compacted_journal_front(store: StoreState, i: int)
    requires
        store.wf(),
        0 <= i <= store.entries.len(),
        compacted_log(store.log, store.entries, i as nat) is Some,
    ensures
        encodable(compacted_journal(store).take(i)),
        journal_bytes(compacted_journal(store).take(i)) == compacted_log(store.log, store.entries, i as nat).unwrap(),
        journal_entries(compacted_journal(store).take(i)) == Seq::new(
            i as nat,
            |t: int| (store.entries[t].0, compacted_position(store.log, store.entries, t)),
        ),
    decreases i,
{
    let journal = compacted_journal(store);
    let front = journal.take(i);
    let slots = Seq::new(i as nat, |t: int| (store.entries[t].0, compacted_position(store.log, store.entries, t)));
    if i == 0 {
        assert(journal_entries(front) =~= slots);
    } else {
        lemma_compacted_journal_front(store, i - 1);
        let before = journal.take(i - 1);
        assert(front.drop_last() =~= before);
        assert(front.last() == journal[i - 1]);
        assert(record_bytes(journal[i - 1]) == rewritten(store.log, store.entries[i - 1]));
        assert forall|t: int| 0 <= t < front.len() implies record_bytes(#[trigger] front[t]) is Some by {
            if t < i - 1 {
                assert(front[t] == before[t]);
            }
        }
        let earlier = journal_entries(before);
        let key = store.entries[i - 1].0;
        assert(!has_key(earlier, key)) by {
            if has_key(earlier, key) {
                let t = slot_of(earlier, key);
                assert(earlier[t].0 == store.entries[t].0);
                assert(store.entries[t].0 != store.entries[i - 1].0);
            }
        }
        assert(journal_entries(front) =~= slots);
    }
}

/// Compaction leaves a store that is written as the records it wrote.
pub proof fn lemma_journal_compacted(store: StoreState)
    requires
        store.wf(),
        store.compacted() is Some,
    ensures
        written_as(store.compacted().unwrap(), compacted_journal(store)),
{
    let journal = compacted_journal(store);
    lemma_compacted_journal_front(store, store.entries.len() as int);
    assert(journal.take(store.entries.len() as int) =~= journal);
}

/// The log of the first `m` records of a journal is the front of the
/// journal's log.
pub proof fn lemma_journal_front(journal: Seq<LogEntryView>, m: int)
    requires
        0 <= m <= journal.len(),
    ensures
        journal_bytes(journal.take(m)).len() <= journal_bytes(journal).len(),
        journal_bytes(journal).take(journal_bytes(journal.take(m)).len() as int) == journal_bytes(journal.take(m)),
    decreases journal.len(),
{
    if m == journal.len() {
        assert(journal.take(m) =~= journal);
        assert(journal_bytes(journal).take(journal_bytes(journal).len() as int) =~= journal_bytes(journal));
    } else {
        lemma_journal_front(journal.drop_last(), m);
        assert(journal.drop_last().take(m) =~= journal.take(m));
        let front = journal_bytes(journal.take(m));
        assert(journal_bytes(journal).take(front.len() as int) =~= journal_bytes(journal.drop_last()).take(
            front.len() as int,
        ));
    }
}

/// Where `serde_json` reads a stream of records back as it was written, the
/// recovery scan of a journal's log, taken up behind the first `m` records
/// with the slots that these leave, ends with the slots that the whole
/// journal leaves.
pub proof fn lemma_scan_replays(journal: Seq<LogEntryView>, m: int)
    requires
        stream_reads_back(),
        encodable(journal),
        0 <= m <= journal.len(),
        journal_bytes(journal).len() <= u64::MAX,
    ensures
        scanned(
            journal_bytes(journal),
            journal_bytes(journal.take(m)).len(),
            journal_entries(journal.take(m)),
        ) == Some(journal_entries(journal)),
    decreases journal.len() - m,
{
    let log = journal_bytes(journal);
    let at = journal_bytes(journal.take(m)).len();
    lemma_journal_front(journal, m);
    if m == journal.len() {
        assert(journal.take(m) =~= journal);
        assert(log.skip(at as int) =~= Seq::<u8>::empty());
    } else {
        let entry = journal[m];
        let record = record_bytes(entry).unwrap();
        lemma_journal_front(journal, m + 1);
        assert(journal.take(m + 1).drop_last() =~= journal.take(m));
        assert(journal.take(m + 1).last() == entry);
        let next = at + record.len();
        let rest = log.skip(next as int);
        assert(log.take(next as int) == journal_bytes(journal.take(m)) + record);
        assert(log.skip(at as int) =~= record + rest) by {
            assert forall|t: int| 0 <= t < record.len() implies log[at + t] == record[t] by {
                assert(log.take(next as int)[at + t] == record[t]);
            }
        }
        assert(stream_front(record + rest) == Some(Some((entry, record.len()))));
        lemma_record_not_empty(entry);
        lemma_scan_replays(journal, m + 1);
    }
}

/// Reopening recovers the index: where `serde_json` reads a stream of
/// records back as it was written, the recovery scan of the log of a store
/// that is written as a journal gives the store's own slots, so the store
/// that `open` returns for this log and the store's metadata is this store.
pub proof fn lemma_reopen_recovers(store: StoreState, journal: Seq<LogEntryView>)
    requires
        stream_reads_back(),
        written_as(store, journal),
        store.log.len() <= u64::MAX,
    ensures
        scanned(store.log, 0, Seq::empty()) == Some(store.entries),
{
    lemma_scan_replays(journal, 0);
    assert(journal.take(0) =~= Seq::<LogEntryView>::empty());
}

/// Whether every fresh `Set` record reads back as the value it was made of.
pub open spec fn records_read_back() -> bool {
    forall|key: Seq<char>, value: Seq<char>|
        record_bytes(LogEntryView::SetKey { key, value }) is Some ==> #[trigger] reads_back(key, value)
}

/// The store after the check that ends `set` and `remove`: compacted where
/// compaction falls due and succeeds, else as it is.
pub open spec fn finished(mid: StoreState) -> StoreState {
    match mid.settled() {
        Some(done) => done,
        None => mid,
    }
}

/// What one operation, given as the record it appends, makes of a store,
/// compaction included.
pub open spec fn served(store: StoreState, op: LogEntryView) -> StoreState {
    match record_bytes(op) {
        None => store,
        Some(record) => match op {
            LogEntryView::SetKey { key, value } => finished(store.after_set(key, record)),
            LogEntryView::Rm { key } => if store.index().contains_key(key) {
                finished(store.after_remove(key, record))
            } else {
                store
            },
        },
    }
}

/// The store after a run of operations, compactions included.
pub open spec fn history(store: StoreState, ops: Seq<LogEntryView>) -> StoreState
    decreases ops.len(),
{
    if ops.len() == 0 {
        store
    } else {
        served(history(store, ops.drop_last()), ops.last())
    }
}

/// No log on the way through a run of operations, before or after a
/// compaction, is longer than a position can tell.
pub open spec fn within_limits(store: StoreState, ops: Seq<LogEntryView>) -> bool
    decreases ops.len(),
{
    ops.len() == 0 || {
        &&& within_limits(store, ops.drop_last())
        &&& applied(history(store, ops.drop_last()), ops.last()).log.len() <= u64::MAX
        &&& served(history(store, ops.drop_last()), ops.last()).log.len() <= u64::MAX
    }
}

/// What a key is bound to after a run of operations: the value of its last
/// `Set` unless a `Rm` of the key came after it, and what it was bound to at
/// the start where the run never touched it. Operations whose record cannot
/// be encoded do not count.
pub open spec fn last_value(start: Option<Reading>, ops: Seq<LogEntryView>, key: Seq<char>) -> Option<Reading>
    decreases ops.len(),
{
    if ops.len() == 0 {
        start
    } else if record_bytes(ops.last()) is Some && ops.last().key() == key {
        match ops.last() {
            LogEntryView::SetKey { key: _, value } => Some(Reading::Value(value)),
            LogEntryView::Rm { .. } => None,
        }
    } else {
        last_value(start, ops.drop_last(), key)
    }
}

/// The state that `set` leaves is the one that `served` gives for its `Set`
/// record.
pub proof fn lemma_set_serves(
    before: StoreState,
    key: Seq<char>,
    value: Seq<char>,
    out: Result<(), KvsError>,
    after: StoreState,
)
    requires
        write_result_is(
            out,
            before,
            match record_bytes(LogEntryView::SetKey { key, value }) {
                Some(record) => Some(before.after_set(key, record)),
                None => None,
            },
            after,
        ),
    ensures
        after == served(before, LogEntryView::SetKey { key, value }),
{
}

/// The state that `remove` leaves for a live key is the one that `served`
/// gives for its `Rm` record.
pub proof fn lemma_remove_serves(before: StoreState, key: Seq<char>, out: Result<(), KvsError>, after: StoreState)
    requires
        before.index().contains_key(key),
        write_result_is(
            out,
            before,
            match record_bytes(LogEntryView::Rm { key }) {
                Some(record) => Some(before.after_remove(key, record)),
                None => None,
            },
            after,
        ),
    ensures
        after == served(before, LogEntryView::Rm { key }),
{
}

/// Where fresh records read back, the check that ends `set` and `remove`
/// keeps the store well-formed and every key's answer.
pub proof fn lemma_finished_keeps(mid: StoreState, key: Seq<char>)
    requires
        mid.wf(),
        records_read_back(),
        finished(mid).log.len() <= u64::MAX,
    ensures
        finished(mid).wf(),
        finished(mid).answer(key) == mid.answer(key),
{
    if mid.count > COMPACT_NUM_THRESHOLD && mid.compacted() is Some {
        lemma_compaction_keeps(mid, key);
        if mid.index().contains_key(key) {
            match mid.answer(key) {
                Some(Reading::Value(value)) => {
                    assert(reads_back(key, value));
                },
                _ => {},
            }
        } else {
            assert(!finished(mid).index().dom().contains(key));
        }
    }
}

/// Last write wins, compactions included: where fresh records read back,
/// after any run of `set` and `remove` the store is well-formed and `get` of
/// any key answers with the value of the key's last `Set`, or with nothing
/// where a `Rm` of the key came after it.
pub proof fn lemma_last_set_wins(store: StoreState, ops: Seq<LogEntryView>, key: Seq<char>)
    requires
        store.wf(),
        records_read_back(),
        within_limits(store, ops),
    ensures
        history(store, ops).wf(),
        history(store, ops).answer(key) == last_value(store.answer(key), ops, key),
    decreases ops.len(),
{
    if ops.len() > 0 {
        let before = history(store, ops.drop_last());
        let op = ops.last();
        lemma_last_set_wins(store, ops.drop_last(), key);
        match record_bytes(op) {
            None => {},
            Some(record) => match op {
                LogEntryView::SetKey { key: written, value } => {
                    lemma_set_then_get(before, written, record, key);
                    lemma_finished_keeps(before.after_set(written, record), key);
                    if written == key {
                        assert(reads_back(key, value));
                    }
                },
                LogEntryView::Rm { key: removed } => {
                    if before.index().contains_key(removed) {
                        lemma_remove_then_get(before, removed, record, key);
                        lemma_finished_keeps(before.after_remove(removed, record), key);
                    }
                },
            },
        }
    }
}

/// `set` is idempotent, compactions included: where fresh records read
/// back, binding the same value to the same key twice leaves every key with
/// the answer that binding it once leaves.
pub proof fn lemma_set_twice_served(store: StoreState, key: Seq<char>, value: Seq<char>, other: Seq<char>)
    requires
        store.wf(),
        records_read_back(),
        within_limits(
            store,
            seq![LogEntryView::SetKey { key, value }, LogEntryView::SetKey { key, value }],
        ),
    ensures
        history(
            store,
            seq![LogEntryView::SetKey { key, value }, LogEntryView::SetKey { key, value }],
        ).answer(other) == history(store, seq![LogEntryView::SetKey { key, value }]).answer(other),
{
    let op = LogEntryView::SetKey { key, value };
    assert(seq![op, op].drop_last() =~= seq![op]);
    lemma_last_set_wins(store, seq![op], other);
    lemma_last_set_wins(store, seq![op, op], other);
}

/// A store that grew from an empty one by `set` and `remove`, compactions
/// included, is written as some journal: its log holds that journal's
/// records and nothing else.
pub proof fn lemma_history_journal(path: Seq<char>, ops: Seq<LogEntryView>) -> (journal: Seq<LogEntryView>)
    requires
        within_limits(StoreState::empty(path), ops),
    ensures
        history(StoreState::empty(path), ops).wf(),
        written_as(history(StoreState::empty(path), ops), journal),
    decreases ops.len(),
{
    let start = StoreState::empty(path);
    if ops.len() == 0 {
        lemma_journal_empty(path);
        Seq::empty()
    } else {
        let earlier = lemma_history_journal(path, ops.drop_last());
        let before = history(start, ops.drop_last());
        let op = ops.last();
        match record_bytes(op) {
            None => earlier,
            Some(record) => {
                let mid = applied(before, op);
                if mid == before {
                    earlier
                } else {
                    match op {
                        LogEntryView::SetKey { key, value } => {
                            lemma_set_then_get(before, key, record, key);
                            lemma_journal_set(before, earlier, key, value);
                        },
                        LogEntryView::Rm { key } => {
                            lemma_remove_then_get(before, key, record, key);
                            lemma_journal_remove(before, earlier, key);
                        },
                    }
                    if mid.count > COMPACT_NUM_THRESHOLD && mid.compacted() is Some {
                        lemma_compaction_keeps(mid, Seq::empty());
                        lemma_journal_compacted(mid);
                        compacted_journal(mid)
                    } else {
                        earlier.push(op)
                    }
                }
            },
        }
    }
}

/// Durability: where `serde_json` reads a stream of records back as it was
/// written, the recovery scan of the log of a store that grew from an empty
/// one by `set` and `remove` gives the store's own slots. The store that
/// `open` returns for this log and the store's metadata is then this store,
/// and answers every `get` as this store does.
pub proof fn lemma_reopen_after_history(path: Seq<char>, ops: Seq<LogEntryView>)
    requires
        stream_reads_back(),
        within_limits(StoreState::empty(path), ops),
    ensures
        scanned(history(StoreState::empty(path), ops).log, 0, Seq::empty()) == Some(
            history(StoreState::empty(path), ops).entries,
        ),
{
    let journal = lemma_history_journal(path, ops);
    lemma_reopen_recovers(history(StoreState::empty(path), ops), journal);
}

} // verus!
