//! Sealed buffers, and the two ways a table comes to be: written out from a
//! sealed buffer, or merged from two tables.

use crate::entry::{found_view, EntryData};
use crate::files::{AppendableFile, ImmutableFile};
use crate::key::{is_key_hex, Key};
use crate::memtable::{sealed_entries, sort_ranks, view_get, view_keys};
use crate::model::{
    fold_entries, lemma_fold_dom, lemma_fold_push, lemma_fold_sorted, lemma_fold_take, lookup,
    overlay, strictly_sorted,
};
use crate::sstable::{
    copy_entry, lemma_table_empty, slot_ok, table_entries, table_image, table_wf, SSTable,
    SSTableReader,
};
use crate::wal::{log_bytes, replay};
use crate::write_buffer::record_from;
use dashmap::ReadOnlyView;
use vstd::prelude::*;

verus! {

/// A sealed write buffer: what it holds is fixed, and its log is kept until
/// a table has been written from it.
pub struct SSTableBuilder {
    entries: ReadOnlyView<u128, Option<Vec<u8>>>,
    id: String,
    file: ImmutableFile,
}

/// The entry of the table at `index`, or `None` past the last entry.
fn fetch(reader: &SSTableReader<'_>, index: u64) -> (r: Option<(Key, EntryData<Vec<u8>>)>)
    requires
        reader.wf(),
    ensures
        reader@.len() <= u64::MAX,
        match r {
            Some((key, data)) => index < reader@.len() && (key.spec_rank(), data@)
                == reader@[index as int],
            None => index >= reader@.len(),
        },
{
    match reader.read_index(index) {
        Ok(e) => e,
        Err(_) => {
            proof {
                reader.lemma_view();
                assert(slot_ok(reader.offsets_image(), reader.strings_image(), index as int));
                assert(false);
            }
            None
        },
    }
}

impl SSTableBuilder {
    /// What the buffer holds for each key.
    pub closed spec fn contents(&self) -> Map<u128, Option<Seq<u8>>> {
        sealed_entries(self.entries)
    }

    /// The bytes of the buffer's log.
    pub closed spec fn log(&self) -> Seq<u8> {
        self.file@
    }

    /// The identifier of the buffer, which the table written from it takes.
    pub closed spec fn spec_id(&self) -> Seq<char> {
        self.id@
    }

    /// The log is made of whole records, and the buffer holds what the
    /// writes of the log add up to.
    pub open spec fn wf(&self) -> bool {
        &&& log_bytes(replay(self.log())) == self.log()
        &&& self.contents() == fold_entries(replay(self.log()))
    }

    /// The sealed buffer made of its parts.
    pub fn new(entries: ReadOnlyView<u128, Option<Vec<u8>>>, id: String, file: ImmutableFile) -> (b:
        SSTableBuilder)
        ensures
            b.contents() == sealed_entries(entries),
            b.spec_id() == id@,
            b.log() == file@,
    {
        SSTableBuilder { entries, id, file }
    }

    /// The identifier of the buffer.
    pub fn id(&self) -> (id: &str)
        ensures
            id@ == self.spec_id(),
    {
        self.id.as_str()
    }

    /// A copy of the bytes of the buffer's log.
    pub fn log_bytes(&self) -> (b: Vec<u8>)
        ensures
            b@ == self.log(),
    {
        self.file.new_reader().read_all()
    }

    /// What the buffer holds for the key: its record, which may be a
    /// deletion, or `None` where the buffer has no write to the key.
    pub fn read(&self, key: &Key) -> (r: Option<EntryData<Vec<u8>>>)
        ensures
            found_view(r) == lookup(self.contents(), key.spec_rank()),
    {
        match view_get(&self.entries, key.rank()) {
            Some(v) => Some(record_from(v)),
            None => None,
        }
    }

    /// Writes the buffer out as a table under the buffer's identifier: the
    /// entries in the order of their keys, each record after the one before.
    pub fn build(&self) -> (t: SSTable)
        ensures
            t.wf(),
            t.spec_id() == self.spec_id(),
            t.contents() == self.contents(),
            (t.offsets_image(), t.strings_image()) == table_image(t@),
    {
        let mut keys = view_keys(&self.entries);
        let ghost unsorted = keys@;
        sort_ranks(&mut keys);
        let ghost held = self.contents();
        proof {
            unsorted.to_multiset_ensures();
            keys@.to_multiset_ensures();
            unsorted.lemma_multiset_has_no_duplicates();
            keys@.lemma_multiset_has_no_duplicates_conv();
            assert forall|k: u128| keys@.contains(k) <==> held.dom().contains(k) by {
                assert(unsorted.contains(k) <==> unsorted.to_set().contains(k));
                assert(unsorted.contains(k) <==> unsorted.to_multiset().count(k) > 0);
                assert(keys@.contains(k) <==> keys@.to_multiset().count(k) > 0);
            }
        }
        let mut offsets = AppendableFile::new(Vec::new());
        let mut strings = AppendableFile::new(Vec::new());
        let mut offset: u64 = 0;
        let mut i: usize = 0;
        proof {
            lemma_table_empty();
        }
        while i < keys.len()
            invariant
                i <= keys.len(),
                held == self.contents(),
                keys@.no_duplicates(),
                forall|a: int, b: int| 0 <= a <= b < keys@.len() ==> keys@[a] <= keys@[b],
                forall|k: u128| keys@.contains(k) <==> held.dom().contains(k),
                table_wf(offsets@, strings@),
                offset == strings@.len(),
                (offsets@, strings@) == table_image(table_entries(offsets@, strings@)),
                table_entries(offsets@, strings@).len() == i,
                forall|j: int|
                    0 <= j < i ==> #[trigger] table_entries(offsets@, strings@)[j] == (
                        keys@[j],
                        held[keys@[j]],
                    ),
            decreases keys.len() - i,
        {
            let rank = keys[i];
            let ghost before = table_entries(offsets@, strings@);
            assert(keys@.contains(rank));
            match view_get(&self.entries, rank) {
                Some(v) => {
                    let key = Key::from_rank(rank);
                    let data = record_from(v);
                    proof {
                        if i > 0 {
                            assert(before[i - 1].0 == keys@[i - 1]);
                            assert(keys@[i - 1] <= keys@[i as int]);
                            assert(keys@[i - 1] != keys@[i as int]);
                        }
                    }
                    copy_entry(&mut offsets, &mut strings, &mut offset, key, &data);
                    proof {
                        let after = table_entries(offsets@, strings@);
                        assert(after.drop_last() =~= before);
                    }
                },
                None => {
                    proof {
                        assert(false);
                    }
                },
            }
            i += 1;
        }
        let table = SSTable::assemble(self.id.clone(), offsets.close(), strings.close());
        proof {
            table.lemma_view();
            let es = table@;
            lemma_fold_dom(es);
            assert forall|k: u128| fold_entries(es).dom().contains(k) <==> held.dom().contains(
                k,
            ) by {
                if fold_entries(es).dom().contains(k) {
                    let j = choose|j: int| 0 <= j < es.len() && #[trigger] es[j].0 == k;
                    assert(es[j] == (keys@[j], held[keys@[j]]));
                    assert(keys@.contains(k));
                }
                if held.dom().contains(k) {
                    let j = choose|j: int| 0 <= j < keys@.len() && keys@[j] == k;
                    assert(es[j] == (keys@[j], held[keys@[j]]));
                    assert(es[j].0 == k);
                }
            }
            assert forall|k: u128| fold_entries(es).dom().contains(k) implies fold_entries(es)[k]
                == held[k] by {
                let j = choose|j: int| 0 <= j < es.len() && #[trigger] es[j].0 == k;
                assert(es[j] == (keys@[j], held[keys@[j]]));
                lemma_fold_sorted(es, j);
            }
            assert(fold_entries(es) =~= held);
        }
        table
    }

    /// Merges two tables into one under a fresh random identifier. Where both
    /// hold a key, the record of `young` is kept; deletions are kept like
    /// values.
    pub fn merge(young: &SSTable, old: &SSTable) -> (t: SSTable)
        requires
            young.wf(),
            old.wf(),
        ensures
            t.wf(),
            t.contents() == overlay(young.contents(), old.contents()),
            (t.offsets_image(), t.strings_image()) == table_image(t@),
            t@.len() >= young@.len(),
            t@.len() >= old@.len(),
            is_key_hex(t.spec_id()),
    {
        let id = Key::new().hex();
        let mut offsets = AppendableFile::new(Vec::new());
        let mut strings = AppendableFile::new(Vec::new());
        let young_reader = young.reader();
        let old_reader = old.reader();
        let ghost ys = young@;
        let ghost os = old@;
        proof {
            young.lemma_view();
            old.lemma_view();
            young_reader.lemma_view();
            old_reader.lemma_view();
            lemma_table_empty();
            assert(ys.take(0) =~= Seq::empty());
            assert(os.take(0) =~= Seq::empty());
            assert(overlay(fold_entries(ys.take(0)), fold_entries(os.take(0))) =~= Map::empty());
        }
        let mut offset: u64 = 0;
        let mut indexes: (u64, u64) = (0, 0);
        let mut entries = (fetch(&young_reader, 0), fetch(&old_reader, 0));
        loop
            invariant
                young_reader.wf(),
                old_reader.wf(),
                young_reader@ == ys,
                old_reader@ == os,
                strictly_sorted(ys),
                strictly_sorted(os),
                indexes.0 <= ys.len() <= u64::MAX,
                indexes.1 <= os.len() <= u64::MAX,
                match entries.0 {
                    Some((key, data)) => indexes.0 < ys.len() && (key.spec_rank(), data@)
                        == ys[indexes.0 as int],
                    None => indexes.0 == ys.len(),
                },
                match entries.1 {
                    Some((key, data)) => indexes.1 < os.len() && (key.spec_rank(), data@)
                        == os[indexes.1 as int],
                    None => indexes.1 == os.len(),
                },
                table_wf(offsets@, strings@),
                offset == strings@.len(),
                (offsets@, strings@) == table_image(table_entries(offsets@, strings@)),
                table_entries(offsets@, strings@).len() >= indexes.0,
                table_entries(offsets@, strings@).len() >= indexes.1,
                fold_entries(table_entries(offsets@, strings@)) == overlay(
                    fold_entries(ys.take(indexes.0 as int)),
                    fold_entries(os.take(indexes.1 as int)),
                ),
                table_entries(offsets@, strings@).len() > 0 && indexes.0 < ys.len()
                    ==> table_entries(offsets@, strings@).last().0 < ys[indexes.0 as int].0,
                table_entries(offsets@, strings@).len() > 0 && indexes.1 < os.len()
                    ==> table_entries(offsets@, strings@).last().0 < os[indexes.1 as int].0,
                indexes.0 > 0 && indexes.1 < os.len() ==> ys[indexes.0 - 1].0
                    < os[indexes.1 as int].0,
                indexes.1 > 0 && indexes.0 < ys.len() ==> os[indexes.1 - 1].0
                    < ys[indexes.0 as int].0,
            ensures
                table_wf(offsets@, strings@),
                (offsets@, strings@) == table_image(table_entries(offsets@, strings@)),
                table_entries(offsets@, strings@).len() >= ys.len(),
                table_entries(offsets@, strings@).len() >= os.len(),
                fold_entries(table_entries(offsets@, strings@)) == overlay(
                    fold_entries(ys),
                    fold_entries(os),
                ),
            decreases ys.len() - indexes.0 + os.len() - indexes.1,
        {
            let ghost out = table_entries(offsets@, strings@);
            let ghost i = indexes.0 as int;
            let ghost j = indexes.1 as int;
            let ghost fy = fold_entries(ys.take(i));
            let ghost fo = fold_entries(os.take(j));
            match entries {
                (None, None) => {
                    proof {
                        assert(ys.take(i) =~= ys);
                        assert(os.take(j) =~= os);
                    }
                    break ;
                },
                (Some((key, ref data)), None) => {
                    copy_entry(&mut offsets, &mut strings, &mut offset, key, data);
                    proof {
                        assert(table_entries(offsets@, strings@).drop_last() =~= out);
                        lemma_fold_push(out, ys[i]);
                        lemma_fold_take(ys, i);
                        assert(overlay(fy, fo).insert(ys[i].0, ys[i].1) =~= overlay(
                            fy.insert(ys[i].0, ys[i].1),
                            fo,
                        ));
                        if i + 1 < ys.len() {
                            assert(ys[i].0 < ys[i + 1].0);
                        }
                    }
                    indexes.0 += 1;
                    entries.0 = fetch(&young_reader, indexes.0);
                },
                (None, Some((key, ref data))) => {
                    proof {
                        lemma_young_keys_below(ys, i, os[j].0);
                    }
                    copy_entry(&mut offsets, &mut strings, &mut offset, key, data);
                    proof {
                        assert(table_entries(offsets@, strings@).drop_last() =~= out);
                        lemma_fold_push(out, os[j]);
                        lemma_fold_take(os, j);
                        assert(overlay(fy, fo).insert(os[j].0, os[j].1) =~= overlay(
                            fy,
                            fo.insert(os[j].0, os[j].1),
                        ));
                        if j + 1 < os.len() {
                            assert(os[j].0 < os[j + 1].0);
                        }
                    }
                    indexes.1 += 1;
                    entries.1 = fetch(&old_reader, indexes.1);
                },
                (Some((k0, ref d0)), Some((k1, ref d1))) => {
                    let r0 = k0.rank();
                    let r1 = k1.rank();
                    if r0 <= r1 {
                        copy_entry(&mut offsets, &mut strings, &mut offset, k0, d0);
                        proof {
                            assert(table_entries(offsets@, strings@).drop_last() =~= out);
                        lemma_fold_push(out, ys[i]);
                            lemma_fold_take(ys, i);
                            lemma_fold_take(os, j);
                            if r0 == r1 {
                                assert(overlay(fy, fo).insert(ys[i].0, ys[i].1) =~= overlay(
                                    fy.insert(ys[i].0, ys[i].1),
                                    fo.insert(os[j].0, os[j].1),
                                ));
                                if j + 1 < os.len() {
                                    assert(os[j].0 < os[j + 1].0);
                                }
                            } else {
                                assert(overlay(fy, fo).insert(ys[i].0, ys[i].1) =~= overlay(
                                    fy.insert(ys[i].0, ys[i].1),
                                    fo,
                                ));
                            }
                            if i + 1 < ys.len() {
                                assert(ys[i].0 < ys[i + 1].0);
                            }
                        }
                        indexes.0 += 1;
                        entries.0 = fetch(&young_reader, indexes.0);
                        if r0 == r1 {
                            indexes.1 += 1;
                            entries.1 = fetch(&old_reader, indexes.1);
                        }
                    } else {
                        proof {
                            lemma_young_keys_below(ys, i, os[j].0);
                        }
                        copy_entry(&mut offsets, &mut strings, &mut offset, k1, d1);
                        proof {
                            assert(table_entries(offsets@, strings@).drop_last() =~= out);
                        lemma_fold_push(out, os[j]);
                            lemma_fold_take(os, j);
                            assert(overlay(fy, fo).insert(os[j].0, os[j].1) =~= overlay(
                                fy,
                                fo.insert(os[j].0, os[j].1),
                            ));
                            if j + 1 < os.len() {
                                assert(os[j].0 < os[j + 1].0);
                            }
                        }
                        indexes.1 += 1;
                        entries.1 = fetch(&old_reader, indexes.1);
                    }
                },
            }
        }
        let table = SSTable::assemble(id, offsets.close(), strings.close());
        proof {
            table.lemma_view();
        }
        table
    }

    /// Gives up the sealed buffer: its identifier and its log, for the
    /// caller to remove.
    pub fn delete(self) -> (parts: (String, ImmutableFile))
        ensures
            parts.0@ == self.spec_id(),
            parts.1@ == self.log(),
    {
        (self.id, self.file)
    }
}

/// A lookup in the merge of two tables gives what the young table holds for
/// the key, and where it holds nothing, what the old table holds.
pub proof fn lemma_merge_lookup(young: SSTable, old: SSTable, merged: SSTable, k: u128)
    requires
        merged.contents() == overlay(young.contents(), old.contents()),
    ensures
        lookup(merged.contents(), k) == match lookup(young.contents(), k) {
            Some(r) => Some(r),
            None => lookup(old.contents(), k),
        },
{
}

/// Where the last of the first `i` keys of a sorted sequence is below `k`,
/// the map of those `i` entries does not hold `k`.
proof fn lemma_young_keys_below(s: Seq<(u128, Option<Seq<u8>>)>, i: int, k: u128)
    requires
        strictly_sorted(s),
        0 <= i <= s.len(),
        i > 0 ==> s[i - 1].0 < k,
    ensures
        !fold_entries(s.take(i)).dom().contains(k),
{
    lemma_fold_dom(s.take(i));
    if fold_entries(s.take(i)).dom().contains(k) {
        let t = choose|t: int| 0 <= t < s.take(i).len() && #[trigger] s.take(i)[t].0 == k;
        if t < i - 1 {
            assert(s[t].0 < s[i - 1].0);
        }
    }
}

} // verus!
