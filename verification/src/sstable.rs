//! Sorted tables: an index of fixed-width slots, sorted by key, and the
//! records that the slots point to.

use crate::endian::{
    be_digits, be_value, lemma_be_digits_len, lemma_be_value_bound, lemma_be_value_of_digits,
    lemma_radix_16, lemma_radix_8, read_be_u64, write_be,
};
use crate::entry::{found_view, lemma_record_round_trip, parse_record, record_bytes, EntryData};
use crate::files::{AppendableFile, FileReader, ImmutableFile};
use crate::key::{Key, KEY_SIZE};
use crate::model::{fold_entries, lemma_fold_dom, lemma_fold_sorted, lookup, strictly_sorted};
use vstd::prelude::*;
use vstd::slice::slice_subrange;

verus! {

/// Number of bytes of a slot of the index: a key, an offset and a length.
pub const ENTRY_SIZE: usize = 32;

/// One slot of the index: where the record of a key lies among the records.
#[derive(Debug, Clone, Copy)]
pub struct OffsetEntry {
    pub key: Key,
    pub offset: u64,
    pub length: u64,
}

/// Why a table could not be read.
#[derive(Debug, Clone, Copy, PartialEq, Eq)]
pub enum TableError {
    /// A slot points past the end of the records.
    UnexpectedEof,
    /// The bytes that a slot points to stand for no record.
    Corrupt,
    /// The index is not a whole number of slots.
    Misaligned,
    /// A key is not above the key before it.
    Unsorted,
}

/// The bytes of a slot: the key, then offset and length, each as eight
/// big-endian bytes.
pub open spec fn slot_bytes(rank: u128, offset: u64, length: u64) -> Seq<u8> {
    be_digits(rank as nat, KEY_SIZE as nat) + be_digits(offset as nat, 8) + be_digits(
        length as nat,
        8,
    )
}

/// The rank of the key in a slot.
pub open spec fn slot_rank(slot: Seq<u8>) -> u128 {
    be_value(slot.subrange(0, KEY_SIZE as int)) as u128
}

/// The offset in a slot.
pub open spec fn slot_offset(slot: Seq<u8>) -> u64 {
    be_value(slot.subrange(KEY_SIZE as int, KEY_SIZE + 8)) as u64
}

/// The length in a slot.
pub open spec fn slot_length(slot: Seq<u8>) -> u64 {
    be_value(slot.subrange(KEY_SIZE + 8, ENTRY_SIZE as int)) as u64
}

/// The number of slots in an index.
pub open spec fn slot_count(offsets: Seq<u8>) -> nat {
    offsets.len() / (ENTRY_SIZE as nat)
}

/// The `i`-th slot of an index.
pub open spec fn slot(offsets: Seq<u8>, i: int) -> Seq<u8> {
    offsets.subrange(ENTRY_SIZE * i, ENTRY_SIZE * i + ENTRY_SIZE)
}

/// The `i`-th slot points inside the records.
pub open spec fn slot_in_range(offsets: Seq<u8>, strings: Seq<u8>, i: int) -> bool {
    slot_offset(slot(offsets, i)) + slot_length(slot(offsets, i)) <= strings.len()
}

/// The bytes that the `i`-th slot points to.
pub open spec fn payload(offsets: Seq<u8>, strings: Seq<u8>, i: int) -> Seq<u8> {
    let s = slot(offsets, i);
    strings.subrange(slot_offset(s) as int, slot_offset(s) + slot_length(s))
}

/// The `i`-th slot points to bytes that stand for a record.
pub open spec fn slot_ok(offsets: Seq<u8>, strings: Seq<u8>, i: int) -> bool {
    slot_in_range(offsets, strings, i) && parse_record(payload(offsets, strings, i)) is Some
}

/// The `i`-th entry of a table: the key of the slot and the record it
/// points to.
pub open spec fn entry_at(offsets: Seq<u8>, strings: Seq<u8>, i: int) -> (u128, Option<Seq<u8>>) {
    (slot_rank(slot(offsets, i)), parse_record(payload(offsets, strings, i))->0)
}

/// The entries of a table, in the order of its slots.
pub open spec fn table_entries(offsets: Seq<u8>, strings: Seq<u8>) -> Seq<(u128, Option<Seq<u8>>)> {
    Seq::new(slot_count(offsets), |i: int| entry_at(offsets, strings, i))
}

/// The two files form a table: the index is a whole number of slots, each
/// slot points to a record inside the records, and the keys ascend strictly.
pub open spec fn table_wf(offsets: Seq<u8>, strings: Seq<u8>) -> bool {
    &&& offsets.len() % (ENTRY_SIZE as nat) == 0
    &&& forall|i: int| 0 <= i < slot_count(offsets) ==> slot_ok(offsets, strings, i)
    &&& strictly_sorted(table_entries(offsets, strings))
}

/// What is wrong with the `i`-th slot, if anything: it points past the end
/// of the records, or to bytes that stand for no record, or its key is not
/// above the key of the slot before.
pub open spec fn defect_at(offsets: Seq<u8>, strings: Seq<u8>, i: int) -> Option<TableError> {
    if !slot_in_range(offsets, strings, i) {
        Some(TableError::UnexpectedEof)
    } else if parse_record(payload(offsets, strings, i)) is None {
        Some(TableError::Corrupt)
    } else if i > 0 && slot_rank(slot(offsets, i - 1)) >= slot_rank(slot(offsets, i)) {
        Some(TableError::Unsorted)
    } else {
        None
    }
}

/// The first `n` slots have no defect.
pub open spec fn sound_up_to(offsets: Seq<u8>, strings: Seq<u8>, n: int) -> bool {
    forall|i: int| 0 <= i < n ==> (#[trigger] defect_at(offsets, strings, i)) is None
}

/// The defect of the first slot, from `from` on, that has one.
pub open spec fn scan_defect(offsets: Seq<u8>, strings: Seq<u8>, from: int) -> Option<TableError>
    decreases slot_count(offsets) - from,
{
    if from < 0 || from >= slot_count(offsets) {
        None
    } else if defect_at(offsets, strings, from) is Some {
        defect_at(offsets, strings, from)
    } else {
        scan_defect(offsets, strings, from + 1)
    }
}

/// What keeps two files from forming a table, if anything: an index that is
/// not a whole number of slots, or else the defect of the first slot that
/// has one.
pub open spec fn table_defect(offsets: Seq<u8>, strings: Seq<u8>) -> Option<TableError> {
    if offsets.len() % (ENTRY_SIZE as nat) != 0 {
        Some(TableError::Misaligned)
    } else {
        scan_defect(offsets, strings, 0)
    }
}

/// Where the slots from `from` up to `upto` have no defect, the first defect
/// from `from` on is the first from `upto` on.
pub proof fn lemma_scan_defect_skips(offsets: Seq<u8>, strings: Seq<u8>, from: int, upto: int)
    requires
        0 <= from <= upto <= slot_count(offsets),
        forall|i: int| from <= i < upto ==> (#[trigger] defect_at(offsets, strings, i)) is None,
    ensures
        scan_defect(offsets, strings, from) == scan_defect(offsets, strings, upto),
    decreases upto - from,
{
    if from < upto {
        assert(defect_at(offsets, strings, from) is None);
        lemma_scan_defect_skips(offsets, strings, from + 1, upto);
    }
}

/// Two files form a table exactly when nothing keeps them from it.
pub proof fn lemma_table_defect(offsets: Seq<u8>, strings: Seq<u8>)
    ensures
        table_defect(offsets, strings) is None <==> table_wf(offsets, strings),
{
    let n = slot_count(offsets) as int;
    lemma_wf_is_no_defect(offsets, strings);
    if offsets.len() % (ENTRY_SIZE as nat) == 0 {
        if sound_up_to(offsets, strings, n) {
            lemma_scan_defect_skips(offsets, strings, 0, n);
        } else {
            lemma_scan_finds(offsets, strings, 0);
        }
    }
}

/// Where some slot from `from` on has a defect, the scan reports one.
proof fn lemma_scan_finds(offsets: Seq<u8>, strings: Seq<u8>, from: int)
    requires
        0 <= from,
        exists|i: int|
            from <= i < slot_count(offsets) && (#[trigger] defect_at(offsets, strings, i)) is Some,
    ensures
        scan_defect(offsets, strings, from) is Some,
    decreases slot_count(offsets) - from,
{
    let i = choose|i: int|
        from <= i < slot_count(offsets) && (#[trigger] defect_at(offsets, strings, i)) is Some;
    if defect_at(offsets, strings, from) is None {
        assert(i > from);
        lemma_scan_finds(offsets, strings, from + 1);
    }
}

/// The two files of the table that holds the given entries and is written
/// in one pass: the records one after the other, each slot pointing to its
/// record.
pub open spec fn table_image(entries: Seq<(u128, Option<Seq<u8>>)>) -> (Seq<u8>, Seq<u8>)
    decreases entries.len(),
{
    if entries.len() == 0 {
        (Seq::empty(), Seq::empty())
    } else {
        let before = table_image(entries.drop_last());
        let record = record_bytes(entries.last().1);
        (
            before.0 + slot_bytes(entries.last().0, before.1.len() as u64, record.len() as u64),
            before.1 + record,
        )
    }
}

proof fn lemma_adjacent_sorted(offsets: Seq<u8>, strings: Seq<u8>, i: int, j: int)
    requires
        sound_up_to(offsets, strings, slot_count(offsets) as int),
        0 <= i < j < slot_count(offsets),
    ensures
        slot_rank(slot(offsets, i)) < slot_rank(slot(offsets, j)),
    decreases j - i,
{
    assert(defect_at(offsets, strings, j) is None);
    if i < j - 1 {
        lemma_adjacent_sorted(offsets, strings, i, j - 1);
    }
}

/// A table is well formed exactly when its index is a whole number of slots
/// and no slot has a defect.
pub proof fn lemma_wf_is_no_defect(offsets: Seq<u8>, strings: Seq<u8>)
    ensures
        table_wf(offsets, strings) <==> offsets.len() % (ENTRY_SIZE as nat) == 0 && sound_up_to(
            offsets,
            strings,
            slot_count(offsets) as int,
        ),
{
    let n = slot_count(offsets) as int;
    let es = table_entries(offsets, strings);
    if offsets.len() % (ENTRY_SIZE as nat) == 0 && sound_up_to(offsets, strings, n) {
        assert forall|i: int| 0 <= i < n implies slot_ok(offsets, strings, i) by {
            assert(defect_at(offsets, strings, i) is None);
        }
        assert forall|i: int, j: int| 0 <= i < j < es.len() implies es[i].0 < es[j].0 by {
            lemma_adjacent_sorted(offsets, strings, i, j);
        }
    }
    if table_wf(offsets, strings) {
        assert forall|i: int| 0 <= i < n implies (#[trigger] defect_at(offsets, strings, i))
            is None by {
            assert(slot_ok(offsets, strings, i));
            if i > 0 {
                assert(es[i - 1].0 < es[i].0);
            }
        }
    }
}

/// A slot is read back from its bytes.
pub proof fn lemma_slot_round_trip(rank: u128, offset: u64, length: u64)
    ensures
        slot_bytes(rank, offset, length).len() == ENTRY_SIZE,
        slot_rank(slot_bytes(rank, offset, length)) == rank,
        slot_offset(slot_bytes(rank, offset, length)) == offset,
        slot_length(slot_bytes(rank, offset, length)) == length,
{
    let k = be_digits(rank as nat, KEY_SIZE as nat);
    let o = be_digits(offset as nat, 8);
    let l = be_digits(length as nat, 8);
    let s = slot_bytes(rank, offset, length);
    lemma_be_digits_len(rank as nat, KEY_SIZE as nat);
    lemma_be_digits_len(offset as nat, 8);
    lemma_be_digits_len(length as nat, 8);
    lemma_radix_16();
    lemma_radix_8();
    lemma_be_value_of_digits(rank as nat, KEY_SIZE as nat);
    lemma_be_value_of_digits(offset as nat, 8);
    lemma_be_value_of_digits(length as nat, 8);
    assert(s.subrange(0, KEY_SIZE as int) =~= k);
    assert(s.subrange(KEY_SIZE as int, KEY_SIZE + 8) =~= o);
    assert(s.subrange(KEY_SIZE + 8, ENTRY_SIZE as int) =~= l);
}

/// Adding a slot and its record at the ends of the two files of a table adds
/// one entry after the others and changes none of them.
pub proof fn lemma_table_push(
    offsets: Seq<u8>,
    strings: Seq<u8>,
    rank: u128,
    record: Option<Seq<u8>>,
)
    requires
        table_wf(offsets, strings),
        strings.len() + record_bytes(record).len() <= u64::MAX,
        slot_count(offsets) > 0 ==> table_entries(offsets, strings).last().0 < rank,
    ensures
        ({
            let o2 = offsets + slot_bytes(
                rank,
                strings.len() as u64,
                record_bytes(record).len() as u64,
            );
            let s2 = strings + record_bytes(record);
            &&& table_wf(o2, s2)
            &&& table_entries(o2, s2) == table_entries(offsets, strings).push((rank, record))
        }),
{
    let n = slot_count(offsets) as int;
    let rb = record_bytes(record);
    let sb = slot_bytes(rank, strings.len() as u64, rb.len() as u64);
    let o2 = offsets + sb;
    let s2 = strings + rb;
    lemma_slot_round_trip(rank, strings.len() as u64, rb.len() as u64);
    lemma_record_round_trip(record);
    assert(ENTRY_SIZE == 32);
    assert(offsets.len() == ENTRY_SIZE * n);
    assert(o2.len() == ENTRY_SIZE * (n + 1));
    assert(slot_count(o2) == n + 1);
    assert forall|i: int| 0 <= i < n implies slot(o2, i) == slot(offsets, i) by {
        assert(ENTRY_SIZE * i + ENTRY_SIZE <= ENTRY_SIZE * n) by (nonlinear_arith)
            requires
                0 <= i < n,
        ;
        assert(slot(o2, i) =~= slot(offsets, i));
    }
    assert(slot(o2, n) =~= sb);
    assert forall|i: int| 0 <= i < n implies #[trigger] payload(o2, s2, i) == payload(
        offsets,
        strings,
        i,
    ) && slot_ok(o2, s2, i) by {
        assert(slot_ok(offsets, strings, i));
        assert(slot(o2, i) == slot(offsets, i));
        assert(payload(o2, s2, i) =~= payload(offsets, strings, i));
    }
    assert(payload(o2, s2, n) =~= rb);
    assert(slot_ok(o2, s2, n));
    let before = table_entries(offsets, strings);
    let after = table_entries(o2, s2);
    assert(after =~= before.push((rank, record))) by {
        assert forall|i: int| 0 <= i < n implies after[i] == before[i] by {
            assert(slot(o2, i) == slot(offsets, i));
            assert(payload(o2, s2, i) == payload(offsets, strings, i));
        }
    }
    assert(strictly_sorted(after)) by {
        assert forall|i: int, j: int| 0 <= i < j < after.len() implies after[i].0 < after[j].0 by {
            if j < n {
                assert(before[i].0 < before[j].0);
            } else if i < n - 1 {
                assert(before[i].0 < before[n - 1].0);
            }
        }
    }
}

/// The table with no entries.
pub proof fn lemma_table_empty()
    ensures
        table_wf(Seq::<u8>::empty(), Seq::<u8>::empty()),
        table_entries(Seq::<u8>::empty(), Seq::<u8>::empty()) == Seq::<
            (u128, Option<Seq<u8>>),
        >::empty(),
{
    assert(table_entries(Seq::<u8>::empty(), Seq::<u8>::empty()) =~= Seq::empty());
}

/// The 32 bytes of a slot.
pub fn get_offset_bytes(entry: &OffsetEntry) -> (bytes: Vec<u8>)
    ensures
        bytes@ == slot_bytes(entry.key.spec_rank(), entry.offset, entry.length),
        bytes@.len() == ENTRY_SIZE,
{
    let mut bytes: Vec<u8> = Vec::new();
    let rank = entry.key.rank();
    write_be(&mut bytes, rank, KEY_SIZE);
    write_be(&mut bytes, entry.offset as u128, 8);
    write_be(&mut bytes, entry.length as u128, 8);
    proof {
        lemma_slot_round_trip(rank, entry.offset, entry.length);
        assert(bytes@ =~= slot_bytes(rank, entry.offset, entry.length));
    }
    bytes
}

/// Appends one entry to a table that is being written: the record at the end
/// of `strings`, its slot at the end of `offsets`. `offset` is the number of
/// bytes of records written so far.
pub(crate) fn copy_entry(
    offsets: &mut AppendableFile,
    strings: &mut AppendableFile,
    offset: &mut u64,
    key: Key,
    data: &EntryData<Vec<u8>>,
)
    requires
        table_wf(old(offsets)@, old(strings)@),
        *old(offset) == old(strings)@.len(),
        slot_count(old(offsets)@) > 0 ==> table_entries(old(offsets)@, old(strings)@).last().0
            < key.spec_rank(),
    ensures
        table_wf(final(offsets)@, final(strings)@),
        table_entries(final(offsets)@, final(strings)@) == table_entries(
            old(offsets)@,
            old(strings)@,
        ).push((key.spec_rank(), data@)),
        final(strings)@ == old(strings)@ + record_bytes(data@),
        final(offsets)@ == old(offsets)@ + slot_bytes(
            key.spec_rank(),
            *old(offset),
            record_bytes(data@).len() as u64,
        ),
        *final(offset) == final(strings)@.len(),
{
    let string_bytes = data.encode();
    let offset_bytes = get_offset_bytes(
        &OffsetEntry { key, offset: *offset, length: string_bytes.len() as u64 },
    );
    strings.append(string_bytes.as_slice());
    offsets.append(offset_bytes.as_slice());
    let end = strings.size();
    proof {
        lemma_table_push(old(offsets)@, old(strings)@, key.spec_rank(), data@);
    }
    *offset = end;
}

/// A sorted table: an index file and a records file under one identifier.
#[derive(Debug)]
pub struct SSTable {
    id: String,
    offsets: ImmutableFile,
    strings: ImmutableFile,
}

impl View for SSTable {
    type V = Seq<(u128, Option<Seq<u8>>)>;

    closed spec fn view(&self) -> Seq<(u128, Option<Seq<u8>>)> {
        table_entries(self.offsets@, self.strings@)
    }
}

impl SSTable {
    /// The bytes of the index file.
    pub closed spec fn offsets_image(&self) -> Seq<u8> {
        self.offsets@
    }

    /// The bytes of the records file.
    pub closed spec fn strings_image(&self) -> Seq<u8> {
        self.strings@
    }

    /// The identifier of the table.
    pub closed spec fn spec_id(&self) -> Seq<char> {
        self.id@
    }

    /// The two files form a table.
    pub open spec fn wf(&self) -> bool {
        table_wf(self.offsets_image(), self.strings_image())
    }

    /// What the table holds for each key.
    pub open spec fn contents(&self) -> Map<u128, Option<Seq<u8>>> {
        fold_entries(self@)
    }

    pub proof fn lemma_view(&self)
        ensures
            self@ == table_entries(self.offsets_image(), self.strings_image()),
    {
    }

    /// The table whose two files are given and known to form a table.
    pub(crate) fn assemble(id: String, offsets: ImmutableFile, strings: ImmutableFile) -> (t:
        SSTable)
        requires
            table_wf(offsets@, strings@),
        ensures
            t.wf(),
            t.spec_id() == id@,
            t.offsets_image() == offsets@,
            t.strings_image() == strings@,
    {
        SSTable { id, offsets, strings }
    }

    /// Opens the table whose two files are given, after checking every slot.
    ///
    /// Fails where the index is not a whole number of slots, and else with
    /// the defect of the first slot that has one.
    pub fn new(id: String, offsets: ImmutableFile, strings: ImmutableFile) -> (r: Result<
        SSTable,
        TableError,
    >)
        ensures
            match r {
                Ok(t) => {
                    &&& table_defect(offsets@, strings@) is None
                    &&& table_wf(offsets@, strings@)
                    &&& t.wf()
                    &&& t.spec_id() == id@
                    &&& t.offsets_image() == offsets@
                    &&& t.strings_image() == strings@
                },
                Err(e) => table_defect(offsets@, strings@) == Some(e) && !table_wf(
                    offsets@,
                    strings@,
                ),
            },
    {
        proof {
            lemma_table_defect(offsets@, strings@);
        }
        if offsets.size() % 32 != 0 {
            return Err(TableError::Misaligned);
        }
        let table = SSTable { id, offsets, strings };
        let reader = table.reader();
        let n = reader.len();
        let mut i: u64 = 0;
        let mut last: u128 = 0;
        while i < n
            invariant
                i <= n == slot_count(offsets@),
                offsets@.len() % (ENTRY_SIZE as nat) == 0,
                reader.offsets_image() == offsets@,
                reader.strings_image() == strings@,
                reader@ == table_entries(offsets@, strings@),
                sound_up_to(offsets@, strings@, i as int),
                i > 0 ==> last == slot_rank(slot(offsets@, i - 1)),
                table_defect(offsets@, strings@) is None <==> table_wf(offsets@, strings@),
            decreases n - i,
        {
            proof {
                lemma_scan_defect_skips(offsets@, strings@, 0, i as int);
            }
            match reader.read_index(i) {
                Ok(Some((key, _))) => {
                    let rank = key.rank();
                    if i > 0 && last >= rank {
                        assert(defect_at(offsets@, strings@, i as int) == Some(
                            TableError::Unsorted,
                        ));
                        return Err(TableError::Unsorted);
                    }
                    assert(defect_at(offsets@, strings@, i as int) is None);
                    last = rank;
                    i += 1;
                },
                Ok(None) => {
                    assert(false);
                    return Err(TableError::Corrupt);
                },
                Err(e) => {
                    assert(defect_at(offsets@, strings@, i as int) == Some(e));
                    return Err(e);
                },
            }
        }
        proof {
            lemma_wf_is_no_defect(offsets@, strings@);
        }
        Ok(table)
    }

    /// The identifier of the table.
    pub fn id(&self) -> (id: &str)
        ensures
            id@ == self.spec_id(),
    {
        self.id.as_str()
    }

    /// The number of entries.
    pub fn len(&self) -> (n: u64)
        ensures
            n == slot_count(self.offsets_image()),
            n == self@.len(),
    {
        self.offsets.size() / 32
    }

    /// Copies of the bytes of the index file and of the records file.
    pub fn images(&self) -> (r: (Vec<u8>, Vec<u8>))
        ensures
            r.0@ == self.offsets_image(),
            r.1@ == self.strings_image(),
    {
        (self.offsets.new_reader().read_all(), self.strings.new_reader().read_all())
    }

    /// A reader of the table. Any number of readers may exist at once.
    pub fn reader(&self) -> (r: SSTableReader<'_>)
        ensures
            r.offsets_image() == self.offsets_image(),
            r.strings_image() == self.strings_image(),
            r@ == self@,
    {
        SSTableReader { offsets: self.offsets.new_reader(), strings: self.strings.new_reader() }
    }

    /// Gives up the table: its identifier and its two files.
    pub fn delete(self) -> (parts: (String, ImmutableFile, ImmutableFile))
        ensures
            parts.0@ == self.spec_id(),
            parts.1@ == self.offsets_image(),
            parts.2@ == self.strings_image(),
    {
        (self.id, self.offsets, self.strings)
    }
}

/// Reads a sorted table.
#[derive(Debug)]
pub struct SSTableReader<'a> {
    offsets: FileReader<'a>,
    strings: FileReader<'a>,
}

impl<'a> View for SSTableReader<'a> {
    type V = Seq<(u128, Option<Seq<u8>>)>;

    closed spec fn view(&self) -> Seq<(u128, Option<Seq<u8>>)> {
        table_entries(self.offsets@, self.strings@)
    }
}

impl<'a> SSTableReader<'a> {
    /// The bytes of the index file.
    pub closed spec fn offsets_image(&self) -> Seq<u8> {
        self.offsets@
    }

    /// The bytes of the records file.
    pub closed spec fn strings_image(&self) -> Seq<u8> {
        self.strings@
    }

    /// The two files form a table.
    pub open spec fn wf(&self) -> bool {
        table_wf(self.offsets_image(), self.strings_image())
    }

    pub proof fn lemma_view(&self)
        ensures
            self@ == table_entries(self.offsets_image(), self.strings_image()),
    {
    }

    /// The number of entries.
    pub fn len(&self) -> (n: u64)
        ensures
            n == slot_count(self.offsets_image()),
            n == self@.len(),
            self.offsets_image().len() <= u64::MAX,
            n <= 0x7ff_ffff_ffff_ffff,
    {
        self.offsets.size() / 32
    }

    /// The slot at `index`, or an error where the index has no such slot.
    pub fn read_offset(&self, index: u64) -> (r: Result<OffsetEntry, TableError>)
        ensures
            match r {
                Ok(e) => {
                    let s = slot(self.offsets_image(), index as int);
                    &&& index < slot_count(self.offsets_image())
                    &&& e.key.spec_rank() == slot_rank(s)
                    &&& e.offset == slot_offset(s)
                    &&& e.length == slot_length(s)
                },
                Err(e) => index >= slot_count(self.offsets_image()) && e
                    == TableError::UnexpectedEof,
            },
    {
        if index >= self.len() {
            return Err(TableError::UnexpectedEof);
        }
        let ghost n = slot_count(self.offsets_image()) as int;
        assert(ENTRY_SIZE == 32);
        assert(32 * index + 32 <= 32 * n <= self.offsets_image().len());
        let start: u64 = index * 32;
        assert(slot(self.offsets_image(), index as int) == self.offsets_image().subrange(
            start as int,
            start + ENTRY_SIZE,
        ));
        match self.offsets.read_fixed::<ENTRY_SIZE>(start) {
            Ok(buf) => {
                let bytes = buf.as_slice();
                let k = slice_subrange(bytes, 0, KEY_SIZE);
                let o = slice_subrange(bytes, KEY_SIZE, KEY_SIZE + 8);
                let l = slice_subrange(bytes, KEY_SIZE + 8, ENTRY_SIZE);
                let key = Key::from_slice(k);
                let offset = read_be_u64(o);
                let length = read_be_u64(l);
                proof {
                    lemma_be_value_bound(k@);
                    lemma_be_value_bound(o@);
                    lemma_be_value_bound(l@);
                    lemma_radix_16();
                    lemma_radix_8();
                }
                Ok(OffsetEntry { key, offset, length })
            },
            Err(_) => {
                proof {
                    assert(false);
                }
                Err(TableError::UnexpectedEof)
            },
        }
    }

    /// The record that a slot points to.
    pub fn read_string(&self, entry: &OffsetEntry) -> (r: Result<EntryData<Vec<u8>>, TableError>)
        ensures
            match r {
                Ok(d) => entry.offset + entry.length <= self.strings_image().len() && parse_record(
                    self.strings_image().subrange(
                        entry.offset as int,
                        entry.offset + entry.length,
                    ),
                ) == Some(d@),
                Err(TableError::UnexpectedEof) => entry.offset + entry.length
                    > self.strings_image().len(),
                Err(TableError::Corrupt) => entry.offset + entry.length
                    <= self.strings_image().len() && parse_record(
                    self.strings_image().subrange(
                        entry.offset as int,
                        entry.offset + entry.length,
                    ),
                ) is None,
                Err(_) => false,
            },
    {
        match self.strings.read(entry.offset, entry.length) {
            Ok(buf) => match EntryData::decode(buf.as_slice()) {
                Some(d) => Ok(d),
                None => Err(TableError::Corrupt),
            },
            Err(_) => Err(TableError::UnexpectedEof),
        }
    }

    /// The entry at `index` in the order of the keys, or `None` past the
    /// last entry.
    pub fn read_index(&self, index: u64) -> (r: Result<Option<(Key, EntryData<Vec<u8>>)>, TableError>)
        ensures
            self@.len() <= u64::MAX,
            match r {
                Ok(Some((key, data))) => {
                    &&& index < self@.len()
                    &&& slot_ok(self.offsets_image(), self.strings_image(), index as int)
                    &&& (key.spec_rank(), data@) == self@[index as int]
                },
                Ok(None) => index >= self@.len(),
                Err(TableError::UnexpectedEof) => index < self@.len() && !slot_in_range(
                    self.offsets_image(),
                    self.strings_image(),
                    index as int,
                ),
                Err(TableError::Corrupt) => {
                    &&& index < self@.len()
                    &&& slot_in_range(self.offsets_image(), self.strings_image(), index as int)
                    &&& !slot_ok(self.offsets_image(), self.strings_image(), index as int)
                },
                Err(_) => false,
            },
    {
        if index < self.len() {
            match self.read_offset(index) {
                Ok(offset) => match self.read_string(&offset) {
                    Ok(data) => Ok(Some((offset.key, data))),
                    Err(e) => Err(e),
                },
                Err(e) => {
                    proof {
                        assert(false);
                    }
                    Err(e)
                },
            }
        } else {
            Ok(None)
        }
    }

    /// Looks the key up by binary search over the index.
    ///
    /// In a table that is well formed the answer is what the table holds
    /// for the key: `Some` of its record, which may be a deletion, or `None`
    /// where the key is not in the table. In any table, a record that is
    /// returned is the record of a slot that holds the key.
    pub fn read(&self, key: &Key) -> (r: Result<Option<EntryData<Vec<u8>>>, TableError>)
        ensures
            self.wf() ==> match r {
                Ok(found) => found_view(found) == lookup(fold_entries(self@), key.spec_rank()),
                Err(_) => false,
            },
            match r {
                Ok(Some(d)) => exists|i: int|
                    0 <= i < self@.len() && slot_ok(self.offsets_image(), self.strings_image(), i)
                        && #[trigger] self@[i] == (key.spec_rank(), d@),
                _ => true,
            },
    {
        let rank = key.rank();
        let ghost entries = self@;
        let mut lower: u64 = 0;
        let mut upper: u64 = self.len();
        let mut found: Option<OffsetEntry> = None;
        let ghost mut at: int = 0;
        while lower < upper
            invariant_except_break
                found is None,
            invariant
                entries == self@,
                lower <= upper <= entries.len(),
                entries.len() == slot_count(self.offsets_image()),
                rank == key.spec_rank(),
                upper <= 0x7ff_ffff_ffff_ffff,
                self.wf() ==> forall|i: int| 0 <= i < lower ==> (#[trigger] entries[i]).0 < rank,
                self.wf() ==> forall|i: int|
                    upper <= i < entries.len() ==> (#[trigger] entries[i]).0 > rank,
            ensures
                entries == self@,
                rank == key.spec_rank(),
                match found {
                    Some(e) => {
                        let s = slot(self.offsets_image(), at);
                        &&& 0 <= at < entries.len()
                        &&& e.key.spec_rank() == rank
                        &&& slot_rank(s) == rank
                        &&& e.offset == slot_offset(s)
                        &&& e.length == slot_length(s)
                    },
                    None => self.wf() ==> forall|i: int|
                        0 <= i < entries.len() ==> (#[trigger] entries[i]).0 != rank,
                },
            decreases upper - lower,
        {
            let mid = (lower + upper) / 2;
            match self.read_offset(mid) {
                Ok(offset) => {
                    let probe = offset.key.rank();
                    assert(entries[mid as int].0 == probe);
                    if rank == probe {
                        found = Some(offset);
                        proof {
                            at = mid as int;
                        }
                        break ;
                    } else if rank < probe {
                        proof {
                            if self.wf() {
                                assert forall|i: int| mid <= i < entries.len() implies (
                                #[trigger] entries[i]).0 > rank by {
                                    if i > mid {
                                        assert(entries[mid as int].0 < entries[i].0);
                                    }
                                }
                            }
                        }
                        upper = mid;
                    } else {
                        proof {
                            if self.wf() {
                                assert forall|i: int| 0 <= i < mid + 1 implies (
                                #[trigger] entries[i]).0 < rank by {
                                    if i < mid {
                                        assert(entries[i].0 < entries[mid as int].0);
                                    }
                                }
                            }
                        }
                        lower = mid + 1;
                    }
                },
                Err(_) => {
                    proof {
                        assert(false);
                    }
                    break ;
                },
            }
        }
        match found {
            Some(offset) => match self.read_string(&offset) {
                Ok(data) => {
                    proof {
                        assert(payload(self.offsets_image(), self.strings_image(), at)
                            == self.strings_image().subrange(
                            offset.offset as int,
                            offset.offset + offset.length,
                        ));
                        assert(slot_ok(self.offsets_image(), self.strings_image(), at));
                        assert(entries[at] == (rank, data@));
                        if self.wf() {
                            lemma_fold_sorted(entries, at);
                        }
                    }
                    Ok(Some(data))
                },
                Err(e) => {
                    proof {
                        if self.wf() {
                            assert(slot_ok(self.offsets_image(), self.strings_image(), at));
                        }
                    }
                    Err(e)
                },
            },
            None => {
                proof {
                    if self.wf() {
                        lemma_fold_dom(entries);
                    }
                }
                Ok(None)
            },
        }
    }
}

/// A binary search for the key of the `i`-th entry of a well-formed table
/// finds the record of that entry.
pub proof fn lemma_read_finds_each(offsets: Seq<u8>, strings: Seq<u8>, i: int)
    requires
        table_wf(offsets, strings),
        0 <= i < slot_count(offsets),
    ensures
        lookup(
            fold_entries(table_entries(offsets, strings)),
            table_entries(offsets, strings)[i].0,
        ) == Some(table_entries(offsets, strings)[i].1),
{
    lemma_fold_sorted(table_entries(offsets, strings), i);
}

} // verus!
