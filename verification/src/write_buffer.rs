//! The write buffer: the writes not yet in any table, held in memory and,
//! one record per write, in a log.

use crate::entry::{entry_bytes, found_view, Entry, EntryData};
use crate::files::ImmutableFile;
use crate::key::{is_key_hex, Key};
use crate::memtable::{live_entries, map_get, map_insert, map_len, map_new, map_seal, record_of};
use crate::model::{fold_entries, lemma_fold_dom, lemma_fold_push, lemma_fold_take, lookup};
use crate::sstable_builder::SSTableBuilder;
use crate::wal::{frame, log_bytes, replay, writes, WAL};
use dashmap::DashMap;
use vstd::prelude::*;
use vstd::slice::slice_to_vec;

verus! {

/// The record that an optional value stands for.
pub fn record_from(v: &Option<Vec<u8>>) -> (r: EntryData<Vec<u8>>)
    ensures
        r@ == record_of(*v),
{
    match v {
        Some(x) => EntryData::Data(slice_to_vec(x.as_slice())),
        None => EntryData::Deleted,
    }
}

/// The optional value that a record holds.
pub fn value_from(d: &EntryData<Vec<u8>>) -> (v: Option<Vec<u8>>)
    ensures
        record_of(v) == d@,
{
    match d {
        EntryData::Data(x) => Some(slice_to_vec(x.as_slice())),
        EntryData::Deleted => None,
    }
}

/// A write buffer.
pub struct WriteBuffer {
    entries: DashMap<u128, Option<Vec<u8>>>,
    id: String,
    file: WAL,
}

impl WriteBuffer {
    /// What the buffer holds for each key.
    pub closed spec fn contents(&self) -> Map<u128, Option<Seq<u8>>> {
        live_entries(self.entries)
    }

    /// The bytes of the buffer's log.
    pub closed spec fn log(&self) -> Seq<u8> {
        self.file@
    }

    /// The identifier of the buffer.
    pub closed spec fn spec_id(&self) -> Seq<char> {
        self.id@
    }

    /// The log is made of whole records, and the buffer holds what the
    /// writes of the log add up to.
    pub open spec fn wf(&self) -> bool {
        &&& log_bytes(replay(self.log())) == self.log()
        &&& self.contents() == fold_entries(replay(self.log()))
    }

    /// The identifier of the buffer.
    pub fn id(&self) -> (id: &str)
        ensures
            id@ == self.spec_id(),
    {
        self.id.as_str()
    }

    /// A buffer under a fresh random identifier, with an empty log.
    pub fn create() -> (b: WriteBuffer)
        ensures
            b.wf(),
            b.contents() == Map::<u128, Option<Seq<u8>>>::empty(),
            b.log() == Seq::<u8>::empty(),
            is_key_hex(b.spec_id()),
    {
        let id = Key::new().hex();
        let b = WriteBuffer::from(id, Vec::new());
        proof {
            assert(replay(Seq::<u8>::empty()) =~= Seq::empty());
            assert(b.contents() =~= Map::empty());
        }
        b
    }

    /// The buffer with the given identifier whose log file holds `log`: it
    /// holds the writes of the log, the later write to a key counting. Bytes
    /// after the last whole record of the log are dropped.
    pub fn from(id: String, log: Vec<u8>) -> (b: WriteBuffer)
        ensures
            b.wf(),
            b.spec_id() == id@,
            b.contents() == fold_entries(replay(log@)),
            b.log() == log_bytes(replay(log@)),
    {
        let (wal, existing) = WAL::open(log);
        let mut entries = map_new();
        let mut i: usize = 0;
        let ghost ws = writes(existing@);
        assert(ws.take(0) =~= Seq::empty());
        while i < existing.len()
            invariant
                i <= existing.len(),
                ws == writes(existing@),
                live_entries(entries) == fold_entries(ws.take(i as int)),
            decreases existing.len() - i,
        {
            let entry = &existing[i];
            let rank = entry.key.rank();
            let value = value_from(&entry.data);
            proof {
                lemma_fold_take(ws, i as int);
                assert(ws[i as int] == (rank, record_of(value)));
            }
            map_insert(&mut entries, rank, value);
            i += 1;
        }
        proof {
            assert(ws.take(existing.len() as int) =~= ws);
            crate::wal::lemma_replay_prefix(log@);
            crate::wal::lemma_wal_round_trip(replay(log@));
        }
        WriteBuffer { entries, id, file: wal }
    }

    /// Records the write: first in the log, then in memory.
    pub fn write(&mut self, entry: Entry<Vec<u8>>)
        requires
            old(self).wf(),
        ensures
            final(self).wf(),
            final(self).spec_id() == old(self).spec_id(),
            final(self).contents() == old(self).contents().insert(entry@.0, entry@.1),
            final(self).log() == old(self).log() + frame(entry_bytes(entry@)),
    {
        self.file.write(&entry);
        let rank = entry.key.rank();
        let value = entry.data.into_data();
        proof {
            lemma_fold_push(replay(old(self).log()), entry@);
        }
        map_insert(&mut self.entries, rank, value);
    }

    /// What the buffer holds for the key: its record, which may be a
    /// deletion, or `None` where the buffer has no write to the key.
    pub fn read(&self, key: &Key) -> (r: Option<EntryData<Vec<u8>>>)
        ensures
            found_view(r) == lookup(self.contents(), key.spec_rank()),
    {
        match map_get(&self.entries, key.rank()) {
            Some(v) => Some(EntryData::from_option(v)),
            None => None,
        }
    }

    /// The number of keys that the buffer holds.
    pub fn size(&self) -> (n: usize)
        requires
            self.wf(),
        ensures
            n == self.contents().dom().len(),
    {
        proof {
            lemma_fold_dom(replay(self.log()));
        }
        map_len(&self.entries)
    }

    /// A copy of the bytes of the buffer's log.
    pub fn log_bytes(&self) -> (b: Vec<u8>)
        ensures
            b@ == self.log(),
    {
        self.file.bytes()
    }

    /// Seals the buffer: no more writes; what it holds can be read and
    /// written out as a table. The log is kept as the durable copy.
    pub fn to_builder(self) -> (b: SSTableBuilder)
        requires
            self.wf(),
        ensures
            b.wf(),
            b.spec_id() == self.spec_id(),
            b.contents() == self.contents(),
            b.log() == self.log(),
    {
        let file = self.file.close();
        SSTableBuilder::new(map_seal(self.entries), self.id, file)
    }

    /// Ends the writing and hands over the log.
    pub fn close(self) -> (f: ImmutableFile)
        ensures
            f@ == self.log(),
    {
        self.file.close()
    }
}

} // verus!
