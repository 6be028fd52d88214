//! The in-memory index: which keys are live, and where in the log the record
//! of each one lies. Every key occurs once; the order of the slots is the
//! order in which compaction writes the records out.

use vstd::prelude::*;

verus! {

/// Where a record lies in the active log: the offset of its first byte and
/// its length in bytes.
#[derive(Clone, Copy, Debug, PartialEq, Eq, Structural)]
pub struct LogPosition {
    pub start: u64,
    pub len: u64,
}

impl LogPosition {
    /// The record of `len` bytes that starts at offset `start`.
    pub fn new(start: u64, len: u64) -> (pos: LogPosition)
        ensures
            pos == (LogPosition { start, len }),
    {
        LogPosition { start, len }
    }

    /// The offset of the record's first byte.
    pub fn start(&self) -> (start: u64)
        ensures
            start == self.start,
    {
        self.start
    }

    /// The length of the record in bytes.
    pub fn len(&self) -> (len: u64)
        ensures
            len == self.len,
    {
        self.len
    }

    /// The offset just behind the record.
    pub open spec fn end(self) -> int {
        self.start + self.len
    }
}

/// No key occurs in two slots.
pub open spec fn distinct_keys(entries: Seq<(Seq<char>, LogPosition)>) -> bool {
    forall|i: int, j: int| 0 <= i < j < entries.len() ==> (#[trigger] entries[i]).0 != (#[trigger] entries[j]).0
}

/// Some slot holds `key`.
pub open spec fn has_key(entries: Seq<(Seq<char>, LogPosition)>, key: Seq<char>) -> bool {
    exists|i: int| 0 <= i < entries.len() && (#[trigger] entries[i]).0 == key
}

/// A slot that holds `key`, where there is one.
pub open spec fn slot_of(entries: Seq<(Seq<char>, LogPosition)>, key: Seq<char>) -> int {
    choose|i: int| 0 <= i < entries.len() && (#[trigger] entries[i]).0 == key
}

/// The map that a sequence of slots stands for.
pub open spec fn map_of(entries: Seq<(Seq<char>, LogPosition)>) -> Map<Seq<char>, LogPosition> {
    Map::new(|key: Seq<char>| has_key(entries, key), |key: Seq<char>| entries[slot_of(entries, key)].1)
}

/// With distinct keys, each slot's key is mapped to that slot's position.
pub proof fn lemma_map_at(entries: Seq<(Seq<char>, LogPosition)>, i: int)
    requires
        distinct_keys(entries),
        0 <= i < entries.len(),
    ensures
        has_key(entries, entries[i].0),
        slot_of(entries, entries[i].0) == i,
        map_of(entries).contains_key(entries[i].0),
        map_of(entries)[entries[i].0] == entries[i].1,
{
    let key = entries[i].0;
    assert(has_key(entries, key));
    let j = slot_of(entries, key);
    assert(0 <= j < entries.len() && entries[j].0 == key);
    if j < i {
        assert(entries[j].0 != entries[i].0);
    } else if i < j {
        assert(entries[i].0 != entries[j].0);
    }
}

/// Overwriting the position in the slot of a key binds the key anew and
/// leaves every other key alone.
pub proof fn lemma_map_update(entries: Seq<(Seq<char>, LogPosition)>, i: int, pos: LogPosition)
    requires
        distinct_keys(entries),
        0 <= i < entries.len(),
    ensures
        distinct_keys(entries.update(i, (entries[i].0, pos))),
        map_of(entries.update(i, (entries[i].0, pos))) == map_of(entries).insert(entries[i].0, pos),
{
    let key = entries[i].0;
    let after = entries.update(i, (key, pos));
    assert forall|a: int, b: int| 0 <= a < b < after.len() implies (#[trigger] after[a]).0 != (#[trigger] after[b]).0 by {
        assert(after[a].0 == entries[a].0);
        assert(after[b].0 == entries[b].0);
    }
    assert forall|k: Seq<char>| has_key(after, k) == has_key(entries, k) by {
        if has_key(after, k) {
            let a = slot_of(after, k);
            assert(entries[a].0 == k);
        }
        if has_key(entries, k) {
            let a = slot_of(entries, k);
            assert(after[a].0 == k);
        }
    }
    assert forall|k: Seq<char>| #[trigger] has_key(after, k) implies map_of(after)[k] == map_of(entries).insert(key, pos)[k] by {
        let a = slot_of(after, k);
        assert(after[a].0 == k);
        lemma_map_at(after, a);
        lemma_map_at(entries, a);
    }
    lemma_map_at(entries, i);
    assert(map_of(after) =~= map_of(entries).insert(key, pos));
}

/// A new slot for a key that no slot holds binds that key and leaves every
/// other key alone.
pub proof fn lemma_map_push(entries: Seq<(Seq<char>, LogPosition)>, key: Seq<char>, pos: LogPosition)
    requires
        distinct_keys(entries),
        !has_key(entries, key),
    ensures
        distinct_keys(entries.push((key, pos))),
        map_of(entries.push((key, pos))) == map_of(entries).insert(key, pos),
{
    let after = entries.push((key, pos));
    assert forall|a: int, b: int| 0 <= a < b < after.len() implies (#[trigger] after[a]).0 != (#[trigger] after[b]).0 by {
        assert(after[a] == entries[a]);
        if b < entries.len() {
            assert(after[b] == entries[b]);
        } else {
            assert(after[b].0 == key);
            assert(entries[a].0 != key);
        }
    }
    assert forall|k: Seq<char>| has_key(after, k) == (k == key || has_key(entries, k)) by {
        if has_key(after, k) {
            let a = slot_of(after, k);
            if a < entries.len() {
                assert(entries[a].0 == k);
            }
        }
        if has_key(entries, k) {
            let a = slot_of(entries, k);
            assert(after[a].0 == k);
        }
        if k == key {
            assert(after[entries.len() as int].0 == k);
        }
    }
    assert forall|k: Seq<char>| #[trigger] has_key(after, k) implies map_of(after)[k] == map_of(entries).insert(key, pos)[k] by {
        let a = slot_of(after, k);
        assert(after[a].0 == k);
        lemma_map_at(after, a);
        if a < entries.len() {
            assert(after[a] == entries[a]);
            lemma_map_at(entries, a);
        }
    }
    assert(map_of(after) =~= map_of(entries).insert(key, pos));
}

/// Taking a slot out unbinds its key and leaves every other key alone.
pub proof fn lemma_map_remove(entries: Seq<(Seq<char>, LogPosition)>, i: int)
    requires
        distinct_keys(entries),
        0 <= i < entries.len(),
    ensures
        distinct_keys(entries.remove(i)),
        map_of(entries.remove(i)) == map_of(entries).remove(entries[i].0),
{
    let key = entries[i].0;
    let after = entries.remove(i);
    assert forall|a: int| 0 <= a < after.len() implies #[trigger] after[a] == entries[if a < i { a } else { a + 1 }] by {}
    assert forall|a: int, b: int| 0 <= a < b < after.len() implies (#[trigger] after[a]).0 != (#[trigger] after[b]).0 by {
        let a0 = if a < i { a } else { a + 1 };
        let b0 = if b < i { b } else { b + 1 };
        assert(after[a] == entries[a0]);
        assert(after[b] == entries[b0]);
        assert(entries[a0].0 != entries[b0].0);
    }
    assert forall|k: Seq<char>| has_key(after, k) == (k != key && has_key(entries, k)) by {
        if has_key(after, k) {
            let a = slot_of(after, k);
            let a0 = if a < i { a } else { a + 1 };
            assert(after[a] == entries[a0]);
            assert(entries[a0].0 == k);
            if a0 < i {
                assert(entries[a0].0 != entries[i].0);
            } else {
                assert(entries[i].0 != entries[a0].0);
            }
        }
        if k != key && has_key(entries, k) {
            let a0 = slot_of(entries, k);
            let a = if a0 < i { a0 } else { a0 - 1 };
            assert(after[a] == entries[a0]);
            assert(after[a].0 == k);
        }
    }
    assert forall|k: Seq<char>| #[trigger] has_key(after, k) implies map_of(after)[k] == map_of(entries).remove(key)[k] by {
        let a = slot_of(after, k);
        let a0 = if a < i { a } else { a + 1 };
        assert(after[a] == entries[a0]);
        lemma_map_at(after, a);
        lemma_map_at(entries, a0);
    }
    assert(map_of(after) =~= map_of(entries).remove(key));
}

/// One slot of the index.
#[derive(Debug)]
pub struct Slot {
    pub key: String,
    pub pos: LogPosition,
}

/// The index from live keys to the positions of their records.
#[derive(Debug)]
pub struct Index {
    pub slots: Vec<Slot>,
}

impl View for Index {
    type V = Map<Seq<char>, LogPosition>;

    open spec fn view(&self) -> Map<Seq<char>, LogPosition> {
        map_of(self.entries())
    }
}

impl Index {
    /// The slots in order, each as a key and its position.
    pub open spec fn entries(&self) -> Seq<(Seq<char>, LogPosition)> {
        Seq::new(self.slots@.len(), |i: int| (self.slots@[i].key@, self.slots@[i].pos))
    }

    /// No key occurs twice.
    pub open spec fn wf(&self) -> bool {
        distinct_keys(self.entries())
    }

    /// An index without keys.
    pub fn new() -> (index: Index)
        ensures
            index.wf(),
            index@ == Map::<Seq<char>, LogPosition>::empty(),
            index.entries() == Seq::<(Seq<char>, LogPosition)>::empty(),
    {
        let index = Index { slots: Vec::new() };
        assert(index.entries() =~= Seq::<(Seq<char>, LogPosition)>::empty());
        assert(index@ =~= Map::<Seq<char>, LogPosition>::empty());
        index
    }

    /// The number of live keys.
    pub fn len(&self) -> (n: usize)
        ensures
            n == self.entries().len(),
    {
        self.slots.len()
    }

    /// The key in slot `i`.
    pub fn key_at(&self, i: usize) -> (key: &String)
        requires
            i < self.entries().len(),
        ensures
            key@ == self.entries()[i as int].0,
    {
        &self.slots[i].key
    }

    /// The position in slot `i`.
    pub fn position_at(&self, i: usize) -> (pos: LogPosition)
        requires
            i < self.entries().len(),
        ensures
            pos == self.entries()[i as int].1,
    {
        self.slots[i].pos
    }

    fn find(&self, key: &String) -> (found: Option<usize>)
        ensures
            match found {
                Some(i) => i < self.entries().len() && self.entries()[i as int].0 == key@,
                None => !has_key(self.entries(), key@),
            },
    {
        let mut i: usize = 0;
        while i < self.slots.len()
            invariant
                i <= self.slots@.len(),
                forall|j: int| 0 <= j < i ==> (#[trigger] self.entries()[j]).0 != key@,
            decreases self.slots@.len() - i,
        {
            if self.slots[i].key == *key {
                return Some(i);
            }
            i = i + 1;
        }
        None
    }

    /// Whether `key` is live.
    pub fn contains_key(&self, key: &String) -> (live: bool)
        ensures
            live == self@.contains_key(key@),
    {
        self.find(key).is_some()
    }

    /// The position of the record of `key`, if the key is live.
    pub fn get(&self, key: &String) -> (pos: Option<LogPosition>)
        requires
            self.wf(),
        ensures
            pos == (if self@.contains_key(key@) { Some(self@[key@]) } else { None }),
    {
        match self.find(key) {
            Some(i) => {
                proof {
                    lemma_map_at(self.entries(), i as int);
                }
                Some(self.slots[i].pos)
            },
            None => None,
        }
    }

    /// Binds `key` to `pos`. A key that was live keeps its slot; a new key
    /// takes a new slot at the end.
    pub fn insert(&mut self, key: String, pos: LogPosition)
        requires
            old(self).wf(),
        ensures
            final(self).wf(),
            final(self)@ == old(self)@.insert(key@, pos),
            final(self).entries() == (if has_key(old(self).entries(), key@) {
                old(self).entries().update(slot_of(old(self).entries(), key@), (key@, pos))
            } else {
                old(self).entries().push((key@, pos))
            }),
    {
        let ghost before = self.entries();
        match self.find(&key) {
            Some(i) => {
                proof {
                    lemma_map_at(before, i as int);
                    lemma_map_update(before, i as int, pos);
                }
                self.slots.set(i, Slot { key, pos });
                assert(self.entries() =~= before.update(i as int, (key@, pos)));
            },
            None => {
                proof {
                    lemma_map_push(before, key@, pos);
                }
                self.slots.push(Slot { key, pos });
                assert(self.entries() =~= before.push((key@, pos)));
            },
        }
    }

    /// Unbinds `key` and tells whether it was live. The other slots keep
    /// their order.
    pub fn remove(&mut self, key: &String) -> (was_live: bool)
        requires
            old(self).wf(),
        ensures
            final(self).wf(),
            was_live == old(self)@.contains_key(key@),
            final(self)@ == old(self)@.remove(key@),
            final(self).entries() == (if was_live {
                old(self).entries().remove(slot_of(old(self).entries(), key@))
            } else {
                old(self).entries()
            }),
    {
        let ghost before = self.entries();
        match self.find(key) {
            Some(i) => {
                proof {
                    lemma_map_at(before, i as int);
                    lemma_map_remove(before, i as int);
                }
                self.slots.remove(i);
                assert(self.entries() =~= before.remove(i as int));
                true
            },
            None => {
                assert(self@ =~= self@.remove(key@));
                false
            },
        }
    }
}

} // verus!
