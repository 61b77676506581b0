//! The tree: the write buffer, the sealed buffers waiting to be written
//! out, and the chain of tables, youngest first.

use crate::entry::{Entry, EntryData};
use crate::files::ImmutableFile;
use crate::key::{is_key_hex, Key};
use crate::memtable::record_of;
use crate::model::{
    lemma_sorted_len, lemma_stack_concat, lemma_stack_first_hit, lemma_stack_miss,
    lemma_stack_one, lemma_stack_two, lookup, overlay, stack, visible,
};
use crate::sstable::{table_defect, table_wf, SSTable, TableError};
use crate::sstable_builder::SSTableBuilder;
use crate::state::State;
use crate::wal::{log_bytes, replay};
use crate::write_buffer::WriteBuffer;
use std::collections::VecDeque;
use vstd::prelude::*;
use vstd::slice::slice_to_vec;

verus! {

/// What each of the sealed buffers holds.
pub open spec fn builder_maps(bs: Seq<SSTableBuilder>) -> Seq<Map<u128, Option<Seq<u8>>>> {
    Seq::new(bs.len(), |i: int| bs[i].contents())
}

/// What each of the tables holds.
pub open spec fn table_maps(ts: Seq<SSTable>) -> Seq<Map<u128, Option<Seq<u8>>>> {
    Seq::new(ts.len(), |i: int| ts[i].contents())
}

/// The identifiers of the sealed buffers.
pub open spec fn builder_ids(bs: Seq<SSTableBuilder>) -> Seq<Seq<char>> {
    Seq::new(bs.len(), |i: int| bs[i].spec_id())
}

/// The identifiers of the tables.
pub open spec fn table_ids(ts: Seq<SSTable>) -> Seq<Seq<char>> {
    Seq::new(ts.len(), |i: int| ts[i].spec_id())
}

/// Every table of the sequence is well formed.
pub open spec fn tables_wf(ts: Seq<SSTable>) -> bool {
    forall|i: int| 0 <= i < ts.len() ==> (#[trigger] ts[i]).wf()
}

/// Every sealed buffer of the sequence is well formed.
pub open spec fn builders_wf(bs: Seq<SSTableBuilder>) -> bool {
    forall|i: int| 0 <= i < bs.len() ==> (#[trigger] bs[i]).wf()
}

/// The test that decides whether two neighbours of the chain are merged:
/// they are left alone where three quarters of the younger one's length,
/// rounded down, is at most the older one's length.
pub open spec fn in_proportion(first_len: nat, second_len: nat) -> bool {
    (3 * first_len) / 4 <= second_len
}

/// The levels with the two at `at` and after it replaced by the first laid
/// over the second.
pub open spec fn merge_pair(
    maps: Seq<Map<u128, Option<Seq<u8>>>>,
    at: int,
) -> Seq<Map<u128, Option<Seq<u8>>>> {
    maps.take(at).push(overlay(maps[at], maps[at + 1])) + maps.skip(at + 2)
}

/// What the chain holds, level by level, once the level at `at` has been
/// merged with the one after it for as long as the two were out of
/// proportion.
pub open spec fn settle(
    maps: Seq<Map<u128, Option<Seq<u8>>>>,
    at: int,
) -> Seq<Map<u128, Option<Seq<u8>>>>
    decreases maps.len(),
{
    if at < 0 || at + 1 >= maps.len() {
        maps
    } else if in_proportion(maps[at].dom().len(), maps[at + 1].dom().len()) {
        maps
    } else {
        settle(merge_pair(maps, at), at)
    }
}

/// What the chain holds, level by level, after one walk from place `at` to
/// its end that settles each place in turn.
pub open spec fn pass(
    maps: Seq<Map<u128, Option<Seq<u8>>>>,
    at: int,
) -> Seq<Map<u128, Option<Seq<u8>>>>
    decreases maps.len() - at,
{
    let settled = settle(maps, at);
    if 0 <= at && at + 1 < settled.len() && settled.len() <= maps.len() {
        pass(settled, at + 1)
    } else {
        settled
    }
}

/// The first `upto` tables of the chain are each in proportion with the
/// table after them.
pub open spec fn chain_in_proportion(ts: Seq<SSTable>, upto: int) -> bool {
    forall|i: int|
        0 <= i < upto && i + 1 < ts.len() ==> in_proportion(
            (#[trigger] ts[i])@.len(),
            ts[i + 1]@.len(),
        )
}

/// The tables after place `at` of the chain `a` are the last tables of
/// the chain `b`.
pub open spec fn same_after(a: Seq<SSTable>, b: Seq<SSTable>, at: int) -> bool {
    forall|i: int|
        at < i < a.len() && a.len() <= b.len() ==> #[trigger] a[i] == b[i + (b.len() - a.len())]
}

/// The first `n` tables of the two chains are the same.
pub open spec fn same_up_to(a: Seq<SSTable>, b: Seq<SSTable>, n: int) -> bool {
    forall|i: int| 0 <= i < n && i < a.len() && i < b.len() ==> #[trigger] a[i] == b[i]
}

/// Whether two neighbours of the chain, of the given lengths, are left
/// unmerged.
pub fn keeps_apart(first_len: u64, second_len: u64) -> (r: bool)
    ensures
        r == in_proportion(first_len as nat, second_len as nat),
{
    (3 * (first_len as u128)) / 4 <= second_len as u128
}

/// The file of a log: the identifier in its name, and its bytes.
#[derive(Debug, Clone, PartialEq, Eq)]
pub struct LogFile {
    pub id: String,
    pub bytes: Vec<u8>,
}

/// The two files of a table: the identifier in their names, the bytes of
/// the index and the bytes of the records.
#[derive(Debug, Clone, PartialEq, Eq)]
pub struct TableFiles {
    pub id: String,
    pub offsets: Vec<u8>,
    pub strings: Vec<u8>,
}

/// Why a tree could not be loaded.
#[derive(Debug, Clone, Copy, PartialEq, Eq)]
pub enum LoadError {
    /// The manifest names a log of which there is no file.
    MissingLog,
    /// The manifest names a table of which there are no files.
    MissingTable,
    /// The files of a table that the manifest names do not form a table.
    Table(TableError),
}

/// The bytes of the first log file under the given identifier.
pub open spec fn log_named(logs: Seq<LogFile>, id: Seq<char>) -> Option<Seq<u8>>
    decreases logs.len(),
{
    if logs.len() == 0 {
        None
    } else if logs.first().id@ == id {
        Some(logs.first().bytes@)
    } else {
        log_named(logs.drop_first(), id)
    }
}

/// The bytes of the first pair of table files under the given identifier.
pub open spec fn table_named(tables: Seq<TableFiles>, id: Seq<char>) -> Option<(Seq<u8>, Seq<u8>)>
    decreases tables.len(),
{
    if tables.len() == 0 {
        None
    } else if tables.first().id@ == id {
        Some((tables.first().offsets@, tables.first().strings@))
    } else {
        table_named(tables.drop_first(), id)
    }
}

/// What keeps the chain of tables, from place `from` on, from being loaded,
/// if anything: for the first table that cannot be loaded, that its files
/// are missing or what keeps them from forming a table.
pub open spec fn chain_defect(ids: Seq<Seq<char>>, tables: Seq<TableFiles>, from: int) -> Option<
    LoadError,
>
    decreases ids.len() - from,
{
    if from < 0 || from >= ids.len() {
        None
    } else {
        match table_named(tables, ids[from]) {
            None => Some(LoadError::MissingTable),
            Some(files) => match table_defect(files.0, files.1) {
                Some(e) => Some(LoadError::Table(e)),
                None => chain_defect(ids, tables, from + 1),
            },
        }
    }
}

/// A log of a sealed buffer that the manifest names is missing.
pub open spec fn builder_log_missing(ids: Seq<Seq<char>>, logs: Seq<LogFile>) -> bool {
    exists|i: int| 0 <= i < ids.len() && log_named(logs, #[trigger] ids[i]) is None
}

/// Why the tree that a manifest names cannot be loaded from the files
/// given, if it cannot: the sealed buffers are looked at first, then the
/// tables from the head of the chain, then the write buffer.
pub open spec fn load_error(
    names: (Seq<char>, Seq<Seq<char>>, Seq<Seq<char>>),
    logs: Seq<LogFile>,
    tables: Seq<TableFiles>,
) -> Option<LoadError> {
    if builder_log_missing(names.1, logs) {
        Some(LoadError::MissingLog)
    } else if chain_defect(names.2, tables, 0) is Some {
        chain_defect(names.2, tables, 0)
    } else if log_named(logs, names.0) is None {
        Some(LoadError::MissingLog)
    } else {
        None
    }
}

/// The first log file under the given identifier.
fn find_log<'a>(logs: &'a Vec<LogFile>, id: &String) -> (r: Option<&'a LogFile>)
    ensures
        match r {
            Some(f) => log_named(logs@, id@) == Some(f.bytes@),
            None => log_named(logs@, id@) is None,
        },
{
    let mut i: usize = 0;
    assert(logs@.skip(0) =~= logs@);
    while i < logs.len()
        invariant
            i <= logs@.len(),
            log_named(logs@, id@) == log_named(logs@.skip(i as int), id@),
        decreases logs@.len() - i,
    {
        assert(logs@.skip(i as int).drop_first() =~= logs@.skip(i + 1));
        if logs[i].id == *id {
            return Some(&logs[i]);
        }
        i += 1;
    }
    None
}

/// The first pair of table files under the given identifier.
fn find_table<'a>(tables: &'a Vec<TableFiles>, id: &String) -> (r: Option<&'a TableFiles>)
    ensures
        match r {
            Some(f) => table_named(tables@, id@) == Some((f.offsets@, f.strings@)),
            None => table_named(tables@, id@) is None,
        },
{
    let mut i: usize = 0;
    assert(tables@.skip(0) =~= tables@);
    while i < tables.len()
        invariant
            i <= tables@.len(),
            table_named(tables@, id@) == table_named(tables@.skip(i as int), id@),
        decreases tables@.len() - i,
    {
        assert(tables@.skip(i as int).drop_first() =~= tables@.skip(i + 1));
        if tables[i].id == *id {
            return Some(&tables[i]);
        }
        i += 1;
    }
    None
}

/// What one cycle of the background service did.
pub struct Cycle {
    /// The sealed buffer that was written out as a table, for its log to be
    /// removed once the manifest is saved.
    pub spent: Option<SSTableBuilder>,
    /// The tables that merges had replaced, for their files to be removed.
    pub garbage: Vec<SSTable>,
    /// Whether the write buffer was rotated.
    pub rotated: bool,
}

impl Cycle {
    /// Whether the cycle found nothing to do, so that the service may sleep.
    pub fn idle(&self) -> (r: bool)
        ensures
            r == (self.spent is None && !self.rotated),
    {
        self.spent.is_none() && !self.rotated
    }
}

/// A log-structured merge tree.
pub struct LSMTree {
    buffer: WriteBuffer,
    builders: VecDeque<SSTableBuilder>,
    tables: Vec<SSTable>,
    retired: Vec<SSTable>,
}

impl LSMTree {
    /// The write buffer in use.
    pub closed spec fn buffer(&self) -> WriteBuffer {
        self.buffer
    }

    /// The sealed buffers, the one sealed last first.
    pub closed spec fn builders(&self) -> Seq<SSTableBuilder> {
        self.builders@
    }

    /// The chain of tables, youngest first.
    pub closed spec fn tables(&self) -> Seq<SSTable> {
        self.tables@
    }

    /// The tables that merges have replaced and that wait to be removed.
    pub closed spec fn retired(&self) -> Seq<SSTable> {
        self.retired@
    }

    /// Every part of the tree is well formed.
    pub open spec fn wf(&self) -> bool {
        &&& self.buffer().wf()
        &&& builders_wf(self.builders())
        &&& tables_wf(self.tables())
        &&& tables_wf(self.retired())
    }

    /// What each level of the tree holds, the level read first coming first:
    /// the write buffer, the sealed buffers, the tables.
    pub open spec fn layers(&self) -> Seq<Map<u128, Option<Seq<u8>>>> {
        seq![self.buffer().contents()] + builder_maps(self.builders()) + table_maps(self.tables())
    }

    /// What the tree holds for each key: the record of the first level that
    /// has one.
    pub open spec fn contents(&self) -> Map<u128, Option<Seq<u8>>> {
        stack(self.layers())
    }

    /// The names that the manifest of the tree holds.
    pub open spec fn names(&self) -> (Seq<char>, Seq<Seq<char>>, Seq<Seq<char>>) {
        (self.buffer().spec_id(), builder_ids(self.builders()), table_ids(self.tables()))
    }

    /// A tree that holds nothing, with a write buffer under a fresh
    /// identifier.
    pub fn new() -> (t: LSMTree)
        ensures
            t.wf(),
            t.contents() == Map::<u128, Option<Seq<u8>>>::empty(),
            t.builders().len() == 0,
            t.tables().len() == 0,
            t.retired().len() == 0,
    {
        let t = LSMTree {
            buffer: WriteBuffer::create(),
            builders: VecDeque::new(),
            tables: Vec::new(),
            retired: Vec::new(),
        };
        proof {
            assert(t.layers() =~= seq![t.buffer().contents()]);
            lemma_stack_one(t.buffer().contents());
        }
        t
    }

    /// Loads the tree that a manifest names from the files given: the write
    /// buffer and the sealed buffers from their logs, the tables from their
    /// two files, each checked slot by slot. Files that the manifest does not
    /// name are not looked at.
    ///
    /// Fails where a named file is not among the files given, or the files of
    /// a named table do not form a table.
    pub fn load(state: &State, logs: &Vec<LogFile>, tables: &Vec<TableFiles>) -> (r: Result<
        LSMTree,
        LoadError,
    >)
        ensures
            match r {
                Ok(t) => {
                    &&& load_error(state.names(), logs@, tables@) is None
                    &&& t.wf()
                    &&& t.retired().len() == 0
                    &&& loaded_from(t, state.names(), logs@, tables@)
                },
                Err(e) => load_error(state.names(), logs@, tables@) == Some(e),
            },
    {
        let mut builders: VecDeque<SSTableBuilder> = VecDeque::new();
        let mut i: usize = 0;
        while i < state.builders.len()
            invariant
                i <= state.builders@.len(),
                builders@.len() == i,
                forall|j: int|
                    0 <= j < i ==> {
                        &&& (#[trigger] builders@[j]).wf()
                        &&& builders@[j].spec_id() == state.builders@[j]@
                        &&& log_named(logs@, state.builders@[j]@) is Some
                        &&& builders@[j].log() == log_bytes(
                            replay(log_named(logs@, state.builders@[j]@)->0),
                        )
                    },
            decreases state.builders@.len() - i,
        {
            let id = &state.builders[i];
            match find_log(logs, id) {
                Some(file) => {
                    let buffer = WriteBuffer::from(id.clone(), slice_to_vec(file.bytes.as_slice()));
                    builders.push_back(buffer.to_builder());
                },
                None => {
                    proof {
                        let names = state.names();
                        assert(log_named(logs@, names.1[i as int]) is None);
                    }
                    return Err(LoadError::MissingLog);
                },
            }
            i += 1;
        }
        proof {
            let names = state.names();
            assert(!builder_log_missing(names.1, logs@)) by {
                if builder_log_missing(names.1, logs@) {
                    let m = choose|m: int|
                        0 <= m < names.1.len() && log_named(logs@, #[trigger] names.1[m]) is None;
                    assert(builders@[m].wf());
                    assert(names.1[m] == state.builders@[m]@);
                }
            }
        }
        let mut chain: Vec<SSTable> = Vec::new();
        let mut j: usize = 0;
        while j < state.tables.len()
            invariant
                j <= state.tables@.len(),
                chain@.len() == j,
                !builder_log_missing(state.names().1, logs@),
                chain_defect(state.names().2, tables@, 0) == chain_defect(
                    state.names().2,
                    tables@,
                    j as int,
                ),
                forall|t: int|
                    0 <= t < j ==> {
                        &&& (#[trigger] chain@[t]).wf()
                        &&& chain@[t].spec_id() == state.tables@[t]@
                        &&& table_named(tables@, state.tables@[t]@) == Some(
                            (chain@[t].offsets_image(), chain@[t].strings_image()),
                        )
                    },
            decreases state.tables@.len() - j,
        {
            let id = &state.tables[j];
            assert(state.names().2[j as int] == state.tables@[j as int]@);
            match find_table(tables, id) {
                Some(files) => {
                    let offsets = ImmutableFile::create(slice_to_vec(files.offsets.as_slice()));
                    let strings = ImmutableFile::create(slice_to_vec(files.strings.as_slice()));
                    match SSTable::new(id.clone(), offsets, strings) {
                        Ok(table) => {
                            chain.push(table);
                        },
                        Err(e) => {
                            return Err(LoadError::Table(e));
                        },
                    }
                },
                None => {
                    return Err(LoadError::MissingTable);
                },
            }
            j += 1;
        }
        let buffer = match find_log(logs, &state.wal) {
            Some(file) => WriteBuffer::from(state.wal.clone(), slice_to_vec(file.bytes.as_slice())),
            None => {
                return Err(LoadError::MissingLog);
            },
        };
        let tree = LSMTree { buffer, builders, tables: chain, retired: Vec::new() };
        proof {
            assert(builder_ids(tree.builders()) =~= state.builders.deep_view());
            assert(table_ids(tree.tables()) =~= state.tables.deep_view());
            let names = state.names();
            assert forall|i: int| 0 <= i < names.1.len() implies {
                &&& log_named(logs@, #[trigger] names.1[i]) is Some
                &&& tree.builders()[i].log() == log_bytes(replay(log_named(logs@, names.1[i])->0))
            } by {
                assert(names.1[i] == state.builders@[i]@);
                assert(tree.builders()[i].wf());
            }
            assert forall|i: int| 0 <= i < names.2.len() implies table_named(
                tables@,
                #[trigger] names.2[i],
            ) == Some((tree.tables()[i].offsets_image(), tree.tables()[i].strings_image())) by {
                assert(names.2[i] == state.tables@[i]@);
                assert(tree.tables()[i].wf());
            }
        }
        Ok(tree)
    }

    /// The durable image of the tree: its manifest, the logs of the write
    /// buffer and of the sealed buffers, and the files of the tables of the
    /// chain.
    pub fn snapshot(&self) -> (r: (State, Vec<LogFile>, Vec<TableFiles>))
        ensures
            r.0.names() == self.names(),
            is_image(*self, r.1@, r.2@),
    {
        let mut logs: Vec<LogFile> = Vec::new();
        logs.push(LogFile { id: self.buffer.id().to_owned(), bytes: self.buffer.log_bytes() });
        let mut i: usize = 0;
        while i < self.builders.len()
            invariant
                i <= self.builders@.len(),
                logs@.len() == 1 + i,
                logs@[0].id@ == self.buffer().spec_id(),
                logs@[0].bytes@ == self.buffer().log(),
                forall|j: int|
                    0 <= j < i ==> {
                        &&& (#[trigger] logs@[1 + j]).id@ == self.builders()[j].spec_id()
                        &&& logs@[1 + j].bytes@ == self.builders()[j].log()
                    },
            decreases self.builders@.len() - i,
        {
            let b = &self.builders[i];
            logs.push(LogFile { id: b.id().to_owned(), bytes: b.log_bytes() });
            i += 1;
        }
        let mut files: Vec<TableFiles> = Vec::new();
        let mut j: usize = 0;
        while j < self.tables.len()
            invariant
                j <= self.tables@.len(),
                files@.len() == j,
                forall|t: int|
                    0 <= t < j ==> {
                        &&& (#[trigger] files@[t]).id@ == self.tables()[t].spec_id()
                        &&& files@[t].offsets@ == self.tables()[t].offsets_image()
                        &&& files@[t].strings@ == self.tables()[t].strings_image()
                    },
            decreases self.tables@.len() - j,
        {
            let t = &self.tables[j];
            let (offsets, strings) = t.images();
            files.push(TableFiles { id: t.id().to_owned(), offsets, strings });
            j += 1;
        }
        (self.state(), logs, files)
    }

    /// Writes a value for the key, or with `None` a deletion of the key.
    pub fn write(&mut self, key: Key, data: Option<Vec<u8>>)
        requires
            old(self).wf(),
        ensures
            final(self).wf(),
            final(self).contents() == old(self).contents().insert(key.spec_rank(), record_of(data)),
            final(self).buffer().contents() == old(self).buffer().contents().insert(
                key.spec_rank(),
                record_of(data),
            ),
            final(self).buffer().spec_id() == old(self).buffer().spec_id(),
            final(self).builders() == old(self).builders(),
            final(self).tables() == old(self).tables(),
            final(self).retired() == old(self).retired(),
    {
        let entry = Entry::new(key, EntryData::from_option(data));
        self.buffer.write(entry);
        proof {
            let rest = builder_maps(self.builders()) + table_maps(self.tables());
            let before = old(self).buffer().contents();
            let after = self.buffer().contents();
            assert(old(self).layers() =~= seq![before] + rest);
            assert(self.layers() =~= seq![after] + rest);
            lemma_stack_concat(seq![before], rest);
            lemma_stack_concat(seq![after], rest);
            lemma_stack_one(before);
            lemma_stack_one(after);
            assert(overlay(after, stack(rest)) =~= overlay(before, stack(rest)).insert(
                key.spec_rank(),
                record_of(data),
            ));
        }
    }

    /// Reads the key: the value written last for it, or `None` where the key
    /// was never written or was deleted last.
    pub fn read(&self, key: &Key) -> (r: Option<Vec<u8>>)
        requires
            self.wf(),
        ensures
            record_of(r) == visible(lookup(self.contents(), key.spec_rank())),
    {
        let ghost layers = self.layers();
        let ghost k = key.spec_rank();
        let ghost nb = self.builders().len() as int;
        match self.buffer.read(key) {
            Some(x) => {
                proof {
                    lemma_stack_first_hit(layers, 0, k);
                }
                return x.into_data();
            },
            None => {},
        }
        let mut i: usize = 0;
        while i < self.builders.len()
            invariant
                i <= self.builders@.len(),
                layers == self.layers(),
                k == key.spec_rank(),
                nb == self.builders().len(),
                forall|u: int| 0 <= u < 1 + i ==> !(#[trigger] layers[u]).dom().contains(k),
            decreases self.builders@.len() - i,
        {
            assert(layers[1 + i] == self.builders()[i as int].contents());
            match self.builders[i].read(key) {
                Some(x) => {
                    proof {
                        lemma_stack_first_hit(layers, 1 + i, k);
                    }
                    return x.into_data();
                },
                None => {},
            }
            i += 1;
        }
        let mut j: usize = 0;
        while j < self.tables.len()
            invariant
                j <= self.tables@.len(),
                self.wf(),
                layers == self.layers(),
                k == key.spec_rank(),
                nb == self.builders().len(),
                forall|u: int| 0 <= u < 1 + nb + j ==> !(#[trigger] layers[u]).dom().contains(k),
            decreases self.tables@.len() - j,
        {
            assert(layers[1 + nb + j] == self.tables()[j as int].contents());
            assert(self.tables()[j as int].wf());
            match self.tables[j].reader().read(key) {
                Ok(Some(x)) => {
                    proof {
                        lemma_stack_first_hit(layers, 1 + nb + j, k);
                    }
                    return x.into_data();
                },
                Ok(None) => {},
                Err(_) => {
                    proof {
                        assert(false);
                    }
                },
            }
            j += 1;
        }
        proof {
            lemma_stack_miss(layers, k);
        }
        None
    }

    /// Rotates the write buffer where it holds more than `threshold` keys:
    /// a buffer under a fresh identifier takes its place, and it is sealed
    /// and put in front of the sealed buffers. Says whether it did.
    pub fn new_buffer(&mut self, threshold: usize) -> (rotated: bool)
        requires
            old(self).wf(),
        ensures
            final(self).wf(),
            final(self).contents() == old(self).contents(),
            rotated == (old(self).buffer().contents().dom().len() > threshold),
            final(self).tables() == old(self).tables(),
            final(self).retired() == old(self).retired(),
            rotated ==> {
                &&& final(self).buffer().contents() == Map::<u128, Option<Seq<u8>>>::empty()
                &&& final(self).buffer().log() == Seq::<u8>::empty()
                &&& is_key_hex(final(self).buffer().spec_id())
                &&& final(self).builders().len() == old(self).builders().len() + 1
                &&& final(self).builders()[0].contents() == old(self).buffer().contents()
                &&& final(self).builders()[0].spec_id() == old(self).buffer().spec_id()
                &&& final(self).builders()[0].log() == old(self).buffer().log()
                &&& final(self).builders().skip(1) == old(self).builders()
            },
            !rotated ==> {
                &&& final(self).buffer() == old(self).buffer()
                &&& final(self).builders() == old(self).builders()
            },
    {
        if self.buffer.size() <= threshold {
            return false;
        }
        let mut old_buffer = WriteBuffer::create();
        std::mem::swap(&mut self.buffer, &mut old_buffer);
        let builder = old_buffer.to_builder();
        self.builders.push_front(builder);
        proof {
            let rest = table_maps(self.tables());
            let sealed = builder_maps(old(self).builders());
            let held = old(self).buffer().contents();
            let empty = Map::<u128, Option<Seq<u8>>>::empty();
            assert(self.builders().skip(1) =~= old(self).builders());
            assert(builder_maps(self.builders()) =~= seq![held] + sealed);
            assert(self.layers() =~= seq![empty] + old(self).layers());
            assert((seq![empty] + old(self).layers()).drop_first() =~= old(self).layers());
            assert(overlay(empty, stack(old(self).layers())) =~= stack(old(self).layers()));
            assert forall|i: int| 0 <= i < self.builders().len() implies (
            #[trigger] self.builders()[i]).wf() by {
                if i > 0 {
                    assert(self.builders()[i] == old(self).builders()[i - 1]);
                }
            }
        }
        true
    }

    /// Merges the table at `at` with the one after it for as long as the two
    /// are out of proportion. Returns the place after `at` once the table
    /// there is in proportion, or `None` where the chain ends at `at`.
    pub fn merge_into_node(&mut self, at: usize) -> (next: Option<usize>)
        requires
            old(self).wf(),
        ensures
            final(self).wf(),
            final(self).contents() == old(self).contents(),
            final(self).buffer() == old(self).buffer(),
            final(self).builders() == old(self).builders(),
            final(self).tables().len() <= old(self).tables().len(),
            table_maps(final(self).tables()) == settle(table_maps(old(self).tables()), at as int),
            stack(table_maps(final(self).tables())) == stack(table_maps(old(self).tables())),
            final(self).tables().len() == old(self).tables().len() ==> final(self).tables() == old(
                self,
            ).tables(),
            same_up_to(final(self).tables(), old(self).tables(), at as int),
            same_after(final(self).tables(), old(self).tables(), at as int),
            final(self).retired().len() == old(self).retired().len() + 2 * (old(self).tables().len()
                - final(self).tables().len()),
            final(self).retired().take(old(self).retired().len() as int) == old(self).retired(),
            at < old(self).tables().len() ==> at < final(self).tables().len(),
            at < old(self).tables().len() ==> final(self).tables()[at as int]@.len() >= old(
                self,
            ).tables()[at as int]@.len(),
            match next {
                Some(n) => n == at + 1 && n < final(self).tables().len() && in_proportion(
                    final(self).tables()[at as int]@.len(),
                    final(self).tables()[n as int]@.len(),
                ),
                None => at + 1 >= final(self).tables().len(),
            },
    {
        loop
            invariant
                self.wf(),
                self.contents() == old(self).contents(),
                self.buffer() == old(self).buffer(),
                self.builders() == old(self).builders(),
                self.tables().len() <= old(self).tables().len(),
                settle(table_maps(self.tables()), at as int) == settle(
                    table_maps(old(self).tables()),
                    at as int,
                ),
                stack(table_maps(self.tables())) == stack(table_maps(old(self).tables())),
                self.tables().len() == old(self).tables().len() ==> self.tables() == old(
                    self,
                ).tables(),
                same_up_to(self.tables(), old(self).tables(), at as int),
                same_after(self.tables(), old(self).tables(), at as int),
                self.retired().len() == old(self).retired().len() + 2 * (old(self).tables().len()
                    - self.tables().len()),
                self.retired().take(old(self).retired().len() as int) == old(self).retired(),
                at < old(self).tables().len() ==> at < self.tables().len() && self.tables()[at as int]@.len()
                    >= old(self).tables()[at as int]@.len(),
            decreases self.tables().len(),
        {
            if at >= self.tables.len() || at + 1 >= self.tables.len() {
                return None;
            }
            assert(self.tables()[at as int].wf());
            assert(self.tables()[at + 1].wf());
            let first_len = self.tables[at].len();
            let second_len = self.tables[at + 1].len();
            proof {
                self.tables()[at as int].lemma_view();
                self.tables()[at + 1].lemma_view();
                lemma_sorted_len(self.tables()[at as int]@);
                lemma_sorted_len(self.tables()[at + 1]@);
            }
            if keeps_apart(first_len, second_len) {
                return Some(at + 1);
            }
            let ghost before = self.tables();
            let ghost shelved = self.retired();
            let second = self.tables.remove(at + 1);
            let first = self.tables.remove(at);
            let merged = SSTableBuilder::merge(&first, &second);
            self.tables.insert(at, merged);
            self.retired.push(first);
            self.retired.push(second);
            proof {
                let after = self.tables();
                let head = before.take(at as int);
                let tail = before.skip(at + 2);
                assert(before =~= head + seq![first, second] + tail);
                assert(after =~= head + seq![merged] + tail);
                assert(table_maps(after) =~= merge_pair(table_maps(before), at as int));
                lemma_replace_pair(head, first, second, merged, tail);
                assert forall|i: int| 0 <= i < after.len() implies (#[trigger] after[i]).wf() by {
                    if i < at {
                        assert(after[i] == before[i]);
                    } else if i > at {
                        assert(after[i] == before[i + 1]);
                    }
                }
                assert forall|i: int| 0 <= i < self.retired().len() implies (
                #[trigger] self.retired()[i]).wf() by {
                    if i < old(self).retired().len() {
                    }
                }
                let front = seq![self.buffer().contents()] + builder_maps(self.builders());
                assert(self.layers() =~= front + table_maps(after));
                lemma_stack_concat(front, table_maps(after));
                lemma_stack_concat(front, table_maps(before));
                assert forall|i: int| 0 <= i < at implies #[trigger] after[i] == before[i] by {}
                assert(after[at as int] == merged);
                assert forall|i: int| at < i < after.len() implies #[trigger] after[i] == old(
                    self,
                ).tables()[i + (old(self).tables().len() - after.len())] by {
                    assert(after[i] == before[i + 1]);
                }
                assert(self.retired().take(old(self).retired().len() as int) =~= shelved.take(
                    old(self).retired().len() as int,
                ));
            }
        }
    }

    /// Writes out the oldest sealed buffer as a table at the head of the
    /// chain, then walks the chain from the head and merges neighbours that
    /// are out of proportion. Returns the sealed buffer that was written
    /// out, for its log to be removed, or `None` where there was none and
    /// nothing was done.
    pub fn merge(&mut self) -> (spent: Option<SSTableBuilder>)
        requires
            old(self).wf(),
        ensures
            final(self).wf(),
            final(self).contents() == old(self).contents(),
            final(self).buffer() == old(self).buffer(),
            match spent {
                Some(b) => {
                    &&& old(self).builders().len() > 0
                    &&& b == old(self).builders().last()
                    &&& final(self).builders() == old(self).builders().drop_last()
                    &&& table_maps(final(self).tables()) == pass(
                        seq![b.contents()] + table_maps(old(self).tables()),
                        0,
                    )
                    &&& stack(table_maps(final(self).tables())) == overlay(
                        b.contents(),
                        stack(table_maps(old(self).tables())),
                    )
                    &&& chain_in_proportion(
                        final(self).tables(),
                        final(self).tables().len() as int,
                    )
                    &&& 0 < final(self).tables().len() <= old(self).tables().len() + 1
                    &&& final(self).tables().len() == old(self).tables().len() + 1 ==> {
                        &&& final(self).tables()[0].spec_id() == b.spec_id()
                        &&& final(self).tables()[0].contents() == b.contents()
                        &&& final(self).tables().skip(1) == old(self).tables()
                        &&& final(self).retired() == old(self).retired()
                    }
                    &&& final(self).retired().take(old(self).retired().len() as int) == old(
                        self,
                    ).retired()
                },
                None => {
                    &&& old(self).builders().len() == 0
                    &&& final(self).builders() == old(self).builders()
                    &&& final(self).tables() == old(self).tables()
                    &&& final(self).retired() == old(self).retired()
                },
            },
    {
        let builder = match self.builders.pop_back() {
            Some(b) => b,
            None => {
                return None;
            },
        };
        let table = builder.build();
        self.tables.insert(0, table);
        proof {
            let bs = old(self).builders();
            let ts = old(self).tables();
            assert(self.tables() =~= seq![table] + ts);
            assert(table_maps(self.tables()) =~= seq![table.contents()] + table_maps(ts));
            assert(builder_maps(bs) =~= builder_maps(self.builders()) + seq![builder.contents()]);
            assert(self.layers() =~= old(self).layers());
            assert((seq![table.contents()] + table_maps(ts)).drop_first() =~= table_maps(ts));
            assert forall|i: int| 0 <= i < self.tables().len() implies (
            #[trigger] self.tables()[i]).wf() by {
                if i > 0 {
                    assert(self.tables()[i] == ts[i - 1]);
                }
            }
            assert forall|i: int| 0 <= i < self.builders().len() implies (
            #[trigger] self.builders()[i]).wf() by {
                assert(self.builders()[i] == bs[i]);
            }
        }
        let ghost flushed = stack(table_maps(self.tables()));
        let ghost built = self.tables();
        let ghost levels = seq![builder.contents()] + table_maps(old(self).tables());
        assert(built.skip(1) =~= old(self).tables());
        assert(self.retired().take(old(self).retired().len() as int) =~= old(self).retired());
        let mut at: usize = 0;
        loop
            invariant
                self.wf(),
                old(self).builders().len() > 0,
                pass(table_maps(self.tables()), at as int) == pass(levels, 0),
                self.tables().len() <= built.len(),
                self.tables().len() == built.len() ==> self.tables() == built && self.retired()
                    == old(self).retired(),
                self.retired().len() >= old(self).retired().len(),
                self.retired().take(old(self).retired().len() as int) == old(self).retired(),
                self.contents() == old(self).contents(),
                self.buffer() == old(self).buffer(),
                self.builders() == old(self).builders().drop_last(),
                stack(table_maps(self.tables())) == flushed,
                at < self.tables().len(),
                chain_in_proportion(self.tables(), at as int),
            ensures
                self.wf(),
                self.contents() == old(self).contents(),
                self.buffer() == old(self).buffer(),
                self.builders() == old(self).builders().drop_last(),
                stack(table_maps(self.tables())) == flushed,
                table_maps(self.tables()) == pass(levels, 0),
                chain_in_proportion(self.tables(), self.tables().len() as int),
                0 < self.tables().len() <= built.len(),
                self.tables().len() == built.len() ==> self.tables() == built && self.retired()
                    == old(self).retired(),
                self.retired().take(old(self).retired().len() as int) == old(self).retired(),
            decreases self.tables().len() - at,
        {
            let ghost before = self.tables();
            let ghost shelved = self.retired();
            match self.merge_into_node(at) {
                Some(next) => {
                    proof {
                        lemma_pass_step(before, self.tables(), at as int);
                        assert(self.retired().take(old(self).retired().len() as int)
                            =~= shelved.take(old(self).retired().len() as int)) by {
                            assert(self.retired().take(shelved.len() as int) == shelved);
                        }
                        if self.tables().len() == before.len() {
                            assert(self.retired() =~= shelved) by {
                                assert(self.retired().take(shelved.len() as int) == shelved);
                            }
                        }
                    }
                    at = next;
                },
                None => {
                    proof {
                        lemma_pass_step(before, self.tables(), at as int);
                        assert(self.retired().take(old(self).retired().len() as int)
                            =~= shelved.take(old(self).retired().len() as int)) by {
                            assert(self.retired().take(shelved.len() as int) == shelved);
                        }
                        if self.tables().len() == before.len() {
                            assert(self.retired() =~= shelved) by {
                                assert(self.retired().take(shelved.len() as int) == shelved);
                            }
                        }
                    }
                    break ;
                },
            }
        }
        Some(builder)
    }

    /// Hands over the tables that merges have replaced, for their files to
    /// be removed. After it the tree holds no table that its manifest does
    /// not name.
    pub fn prune_dag(&mut self) -> (garbage: Vec<SSTable>)
        requires
            old(self).wf(),
        ensures
            final(self).wf(),
            garbage@ == old(self).retired(),
            final(self).retired().len() == 0,
            final(self).buffer() == old(self).buffer(),
            final(self).builders() == old(self).builders(),
            final(self).tables() == old(self).tables(),
            final(self).contents() == old(self).contents(),
    {
        let mut garbage: Vec<SSTable> = Vec::new();
        std::mem::swap(&mut self.retired, &mut garbage);
        garbage
    }

    /// One cycle of the background service: hands over the tables that earlier
    /// merges replaced, rotates the write buffer if it holds more than
    /// `threshold` keys, then writes out the oldest sealed buffer, if there
    /// is one, and merges down the chain. What the tree holds stays as it
    /// was.
    pub fn service(&mut self, threshold: usize) -> (cycle: Cycle)
        requires
            old(self).wf(),
        ensures
            final(self).wf(),
            final(self).contents() == old(self).contents(),
            cycle.garbage@ == old(self).retired(),
            cycle.rotated == (old(self).buffer().contents().dom().len() > threshold),
            !cycle.rotated ==> final(self).buffer() == old(self).buffer(),
            cycle.spent is Some <==> cycle.rotated || old(self).builders().len() > 0,
            cycle.spent is Some && old(self).builders().len() > 0 ==> {
                &&& cycle.spent->0 == old(self).builders().last()
                &&& cycle.rotated ==> final(self).builders().len() == old(self).builders().len()
                &&& !cycle.rotated ==> final(self).builders() == old(self).builders().drop_last()
            },
            cycle.spent is Some && old(self).builders().len() == 0 ==> {
                &&& cycle.spent->0.contents() == old(self).buffer().contents()
                &&& cycle.spent->0.spec_id() == old(self).buffer().spec_id()
                &&& cycle.spent->0.log() == old(self).buffer().log()
                &&& final(self).builders().len() == 0
            },
            cycle.spent is None ==> final(self).builders() == old(self).builders(),
            cycle.spent is None ==> final(self).tables() == old(self).tables(),
            cycle.spent is Some ==> chain_in_proportion(
                final(self).tables(),
                final(self).tables().len() as int,
            ),
    {
        let garbage = self.prune_dag();
        let rotated = self.new_buffer(threshold);
        let ghost sealed = self.builders();
        let spent = self.merge();
        proof {
            if rotated && old(self).builders().len() > 0 {
                assert(sealed.skip(1) == old(self).builders());
                assert(sealed.last() == sealed.skip(1).last());
            }
        }
        Cycle { spent, garbage, rotated }
    }

    /// The manifest of the tree.
    pub fn state(&self) -> (s: State)
        ensures
            s.names() == self.names(),
    {
        let mut builders: Vec<String> = Vec::new();
        let mut i: usize = 0;
        while i < self.builders.len()
            invariant
                i <= self.builders@.len(),
                builders@.len() == i,
                forall|j: int| 0 <= j < i ==> (#[trigger] builders@[j])@ == self.builders@[j].spec_id(),
            decreases self.builders@.len() - i,
        {
            let id = self.builders[i].id();
            builders.push(id.to_owned());
            i += 1;
        }
        let mut tables: Vec<String> = Vec::new();
        let mut j: usize = 0;
        while j < self.tables.len()
            invariant
                j <= self.tables@.len(),
                tables@.len() == j,
                forall|t: int| 0 <= t < j ==> (#[trigger] tables@[t])@ == self.tables@[t].spec_id(),
            decreases self.tables@.len() - j,
        {
            let id = self.tables[j].id();
            tables.push(id.to_owned());
            j += 1;
        }
        let s = State::new(self.buffer.id().to_owned(), builders, tables);
        proof {
            assert(s.builders.deep_view() =~= builder_ids(self.builders()));
            assert(s.tables.deep_view() =~= table_ids(self.tables()));
        }
        s
    }
}

/// The files are the durable image of the tree: the log of the write
/// buffer, then those of the sealed buffers, and the files of the tables of
/// the chain, each under its identifier.
pub open spec fn is_image(t: LSMTree, logs: Seq<LogFile>, tables: Seq<TableFiles>) -> bool {
    &&& logs.len() == 1 + t.builders().len()
    &&& logs[0].id@ == t.buffer().spec_id()
    &&& logs[0].bytes@ == t.buffer().log()
    &&& forall|i: int|
        0 <= i < t.builders().len() ==> {
            &&& (#[trigger] logs[1 + i]).id@ == t.builders()[i].spec_id()
            &&& logs[1 + i].bytes@ == t.builders()[i].log()
        }
    &&& tables.len() == t.tables().len()
    &&& forall|i: int|
        0 <= i < t.tables().len() ==> {
            &&& (#[trigger] tables[i]).id@ == t.tables()[i].spec_id()
            &&& tables[i].offsets@ == t.tables()[i].offsets_image()
            &&& tables[i].strings@ == t.tables()[i].strings_image()
        }
}

/// The tree is the one that the names of a manifest and the files given
/// describe: it bears those names, each of its logs holds the whole records
/// of the first log file under its name, and each of its tables is made of
/// the first pair of table files under its name.
pub open spec fn loaded_from(
    t: LSMTree,
    names: (Seq<char>, Seq<Seq<char>>, Seq<Seq<char>>),
    logs: Seq<LogFile>,
    tables: Seq<TableFiles>,
) -> bool {
    &&& t.names() == names
    &&& log_named(logs, names.0) is Some
    &&& t.buffer().log() == log_bytes(replay(log_named(logs, names.0)->0))
    &&& forall|i: int|
        0 <= i < names.1.len() ==> {
            &&& log_named(logs, #[trigger] names.1[i]) is Some
            &&& t.builders()[i].log() == log_bytes(replay(log_named(logs, names.1[i])->0))
        }
    &&& forall|i: int|
        0 <= i < names.2.len() ==> table_named(tables, #[trigger] names.2[i]) == Some(
            (t.tables()[i].offsets_image(), t.tables()[i].strings_image()),
        )
}

/// The files of the durable image of a tree are those that the manifest of
/// the tree names, in the order of the manifest: the log of the write buffer
/// and those of the sealed buffers, and the files of the tables.
pub proof fn lemma_image_names(t: LSMTree, logs: Seq<LogFile>, tables: Seq<TableFiles>)
    requires
        is_image(t, logs, tables),
    ensures
        Seq::new(logs.len(), |i: int| logs[i].id@) == seq![t.names().0] + t.names().1,
        Seq::new(tables.len(), |i: int| tables[i].id@) == t.names().2,
{
    let log_ids = Seq::new(logs.len(), |i: int| logs[i].id@);
    let named = seq![t.names().0] + t.names().1;
    assert(log_ids =~= named) by {
        assert forall|i: int| 0 <= i < log_ids.len() implies log_ids[i] == named[i] by {
            if i > 0 {
                assert(logs[1 + (i - 1)].id@ == t.builders()[i - 1].spec_id());
            }
        }
    }
    assert(Seq::new(tables.len(), |i: int| tables[i].id@) =~= t.names().2);
}

/// No two logs of the tree bear one identifier, and no two tables.
pub open spec fn distinct_ids(t: LSMTree) -> bool {
    &&& forall|i: int|
        0 <= i < t.builders().len() ==> (#[trigger] t.builders()[i]).spec_id()
            != t.buffer().spec_id()
    &&& forall|i: int, j: int|
        0 <= i < j < t.builders().len() ==> (#[trigger] t.builders()[i]).spec_id() != (
        #[trigger] t.builders()[j]).spec_id()
    &&& forall|i: int, j: int|
        0 <= i < j < t.tables().len() ==> (#[trigger] t.tables()[i]).spec_id() != (
        #[trigger] t.tables()[j]).spec_id()
}

/// Where the file at `at` is the first under its identifier, it is the one
/// found under that identifier.
pub proof fn lemma_log_named(logs: Seq<LogFile>, at: int)
    requires
        0 <= at < logs.len(),
        forall|j: int| 0 <= j < at ==> (#[trigger] logs[j]).id@ != logs[at].id@,
    ensures
        log_named(logs, logs[at].id@) == Some(logs[at].bytes@),
    decreases at,
{
    if at > 0 {
        let rest = logs.drop_first();
        assert(logs[0].id@ != logs[at].id@);
        assert(rest[at - 1] == logs[at]);
        assert forall|j: int| 0 <= j < at - 1 implies (#[trigger] rest[j]).id@ != rest[at - 1].id@ by {
            assert(rest[j] == logs[j + 1]);
        }
        lemma_log_named(rest, at - 1);
    }
}

/// Where the files at `at` are the first under their identifier, they are
/// the ones found under that identifier.
pub proof fn lemma_table_named(tables: Seq<TableFiles>, at: int)
    requires
        0 <= at < tables.len(),
        forall|j: int| 0 <= j < at ==> (#[trigger] tables[j]).id@ != tables[at].id@,
    ensures
        table_named(tables, tables[at].id@) == Some((tables[at].offsets@, tables[at].strings@)),
    decreases at,
{
    if at > 0 {
        let rest = tables.drop_first();
        assert(tables[0].id@ != tables[at].id@);
        assert(rest[at - 1] == tables[at]);
        assert forall|j: int| 0 <= j < at - 1 implies (#[trigger] rest[j]).id@ != rest[at
            - 1].id@ by {
            assert(rest[j] == tables[j + 1]);
        }
        lemma_table_named(rest, at - 1);
    }
}

/// In the durable image of a tree whose identifiers are distinct, each name
/// of the manifest finds the file of its own level, so that loading cannot
/// fail for want of a file or on a broken table.
pub proof fn lemma_image_is_loadable(t: LSMTree, logs: Seq<LogFile>, tables: Seq<TableFiles>)
    requires
        t.wf(),
        is_image(t, logs, tables),
        distinct_ids(t),
    ensures
        log_named(logs, t.names().0) == Some(t.buffer().log()),
        forall|i: int|
            0 <= i < t.builders().len() ==> log_named(logs, #[trigger] t.names().1[i]) == Some(
                t.builders()[i].log(),
            ),
        forall|i: int|
            0 <= i < t.tables().len() ==> table_named(tables, #[trigger] t.names().2[i]) == Some(
                (t.tables()[i].offsets_image(), t.tables()[i].strings_image()),
            ) && table_wf(t.tables()[i].offsets_image(), t.tables()[i].strings_image()),
{
    lemma_log_named(logs, 0);
    assert forall|i: int| 0 <= i < t.builders().len() implies log_named(
        logs,
        #[trigger] t.names().1[i],
    ) == Some(t.builders()[i].log()) by {
        assert(logs[1 + i].id@ == t.builders()[i].spec_id());
        assert forall|j: int| 0 <= j < 1 + i implies (#[trigger] logs[j]).id@ != logs[1 + i].id@ by {
            if j > 0 {
                assert(logs[1 + (j - 1)].id@ == t.builders()[j - 1].spec_id());
                assert(t.builders()[j - 1].spec_id() != t.builders()[i].spec_id());
            }
        }
        lemma_log_named(logs, 1 + i);
    }
    assert forall|i: int| 0 <= i < t.tables().len() implies table_named(
        tables,
        #[trigger] t.names().2[i],
    ) == Some((t.tables()[i].offsets_image(), t.tables()[i].strings_image())) && table_wf(
        t.tables()[i].offsets_image(),
        t.tables()[i].strings_image(),
    ) by {
        assert(tables[i].id@ == t.tables()[i].spec_id());
        assert(t.tables()[i].wf());
        assert forall|j: int| 0 <= j < i implies (#[trigger] tables[j]).id@ != tables[i].id@ by {
            assert(t.tables()[j].spec_id() != t.tables()[i].spec_id());
        }
        lemma_table_named(tables, i);
    }
}

/// The tree loaded from the durable image of a tree whose identifiers are
/// distinct holds what that tree held.
pub proof fn lemma_load_of_snapshot(
    t: LSMTree,
    logs: Seq<LogFile>,
    tables: Seq<TableFiles>,
    loaded: LSMTree,
)
    requires
        t.wf(),
        loaded.wf(),
        distinct_ids(t),
        is_image(t, logs, tables),
        loaded_from(loaded, t.names(), logs, tables),
    ensures
        loaded.contents() == t.contents(),
{
    lemma_image_is_loadable(t, logs, tables);
    assert(loaded.builders().len() == t.builders().len()) by {
        assert(builder_ids(loaded.builders()).len() == builder_ids(t.builders()).len());
    }
    assert(loaded.tables().len() == t.tables().len()) by {
        assert(table_ids(loaded.tables()).len() == table_ids(t.tables()).len());
    }
    assert forall|i: int| 0 <= i < t.builders().len() implies (#[trigger] loaded.builders()[i]).log()
        == t.builders()[i].log() by {
        assert(log_named(logs, t.names().1[i]) == Some(t.builders()[i].log()));
        assert(t.builders()[i].wf());
    }
    assert forall|i: int| 0 <= i < t.tables().len() implies {
        &&& (#[trigger] loaded.tables()[i]).offsets_image() == t.tables()[i].offsets_image()
        &&& loaded.tables()[i].strings_image() == t.tables()[i].strings_image()
    } by {
        assert(table_named(tables, t.names().2[i]) == Some(
            (t.tables()[i].offsets_image(), t.tables()[i].strings_image()),
        ));
    }
    lemma_reopen(t, loaded);
}

/// What a tree holds is decided by the bytes of its logs and of the files
/// of its tables. Two well-formed trees with the same logs and
/// the same table files, level by level, hold the same.
pub proof fn lemma_reopen(before: LSMTree, after: LSMTree)
    requires
        before.wf(),
        after.wf(),
        after.buffer().log() == before.buffer().log(),
        after.builders().len() == before.builders().len(),
        forall|i: int|
            0 <= i < before.builders().len() ==> (#[trigger] after.builders()[i]).log()
                == before.builders()[i].log(),
        after.tables().len() == before.tables().len(),
        forall|i: int|
            0 <= i < before.tables().len() ==> {
                &&& (#[trigger] after.tables()[i]).offsets_image()
                    == before.tables()[i].offsets_image()
                &&& after.tables()[i].strings_image() == before.tables()[i].strings_image()
            },
    ensures
        after.layers() == before.layers(),
        after.contents() == before.contents(),
{
    assert(builder_maps(after.builders()) =~= builder_maps(before.builders())) by {
        assert forall|i: int| 0 <= i < before.builders().len() implies after.builders()[i].contents()
            == before.builders()[i].contents() by {
            assert(after.builders()[i].wf());
            assert(before.builders()[i].wf());
        }
    }
    assert(table_maps(after.tables()) =~= table_maps(before.tables())) by {
        assert forall|i: int| 0 <= i < before.tables().len() implies after.tables()[i].contents()
            == before.tables()[i].contents() by {
            after.tables()[i].lemma_view();
            before.tables()[i].lemma_view();
        }
    }
}

/// Replacing two neighbours of a chain by their merge leaves what the chain
/// holds as it was.
proof fn lemma_replace_pair(
    head: Seq<SSTable>,
    first: SSTable,
    second: SSTable,
    merged: SSTable,
    tail: Seq<SSTable>,
)
    requires
        merged.contents() == overlay(first.contents(), second.contents()),
    ensures
        stack(table_maps(head + seq![merged] + tail)) == stack(
            table_maps(head + seq![first, second] + tail),
        ),
{
    let h = table_maps(head);
    let t = table_maps(tail);
    let one = seq![merged.contents()];
    let two = seq![first.contents(), second.contents()];
    assert(table_maps(head + seq![merged] + tail) =~= h + (one + t));
    assert(table_maps(head + seq![first, second] + tail) =~= h + (two + t));
    lemma_stack_concat(h, one + t);
    lemma_stack_concat(h, two + t);
    lemma_stack_concat(one, t);
    lemma_stack_concat(two, t);
    lemma_stack_one(merged.contents());
    lemma_stack_two(first.contents(), second.contents());
}

/// One step of a pass over the chain: where the tables before `at` were in
/// proportion, and the step left them alone and made the table at `at` no
/// shorter, they still are; and where the step put the table at `at` in
/// proportion with the next, so are the tables up to and with `at`.
proof fn lemma_pass_step(before: Seq<SSTable>, after: Seq<SSTable>, at: int)
    requires
        0 <= at < before.len(),
        at < after.len(),
        chain_in_proportion(before, at),
        same_up_to(after, before, at),
        after[at]@.len() >= before[at]@.len(),
        at + 1 < after.len() ==> in_proportion(after[at]@.len(), after[at + 1]@.len()),
    ensures
        chain_in_proportion(after, at + 1),
        at + 1 >= after.len() ==> chain_in_proportion(after, after.len() as int),
{
    assert forall|i: int| 0 <= i < at + 1 && i + 1 < after.len() implies in_proportion(
        (#[trigger] after[i])@.len(),
        after[i + 1]@.len(),
    ) by {
        if i < at {
            assert(after[i] == before[i]);
            assert(in_proportion(before[i]@.len(), before[i + 1]@.len()));
            if i + 1 < at {
                assert(after[i + 1] == before[i + 1]);
            }
        }
    }
}

} // verus!
