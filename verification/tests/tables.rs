use locker_db::entry::{Entry, EntryData};
use locker_db::files::ImmutableFile;
use locker_db::key::{Key, KEY_SIZE};
use locker_db::sstable::{get_offset_bytes, OffsetEntry, SSTable, TableError};
use locker_db::sstable_builder::SSTableBuilder;
use locker_db::write_buffer::WriteBuffer;

fn data(value: &str) -> EntryData<Vec<u8>> {
    EntryData::Data(value.as_bytes().to_vec())
}

fn build_sstable(sequence: Vec<Entry<Vec<u8>>>) -> SSTable {
    let mut wb = WriteBuffer::create();
    for x in sequence {
        wb.write(x)
    }
    let b = wb.to_builder();
    let table = b.build();
    b.delete();
    table
}

#[test]
fn write_buffer_test() {
    let mut wb = WriteBuffer::create();
    let (k1, k2, k3) = (Key::new(), Key::new(), Key::new());
    let sequence = vec![
        Entry::new(k1, data("okay1")),
        Entry::new(k2, data("ok2")),
        Entry::new(k1, EntryData::Deleted),
        Entry::new(k3, data("okayyy3")),
    ];
    for x in sequence {
        wb.write(x)
    }
    assert_eq!(wb.read(&k1), Some(EntryData::Deleted));
    assert_eq!(wb.read(&k2), Some(data("ok2")));
    assert_eq!(wb.read(&k3), Some(data("okayyy3")));
    assert_eq!(wb.read(&Key::new()), None);
    assert_eq!(wb.size(), 3);
    assert_eq!(wb.id().len(), 32);
    let log = wb.close().into_bytes();
    assert!(!log.is_empty());
}

#[test]
fn write_buffer_recovers_from_its_log() {
    let mut wb = WriteBuffer::create();
    let (k1, k2) = (Key::Key([1; KEY_SIZE]), Key::Key([2; KEY_SIZE]));
    wb.write(Entry::new(k1, data("a")));
    wb.write(Entry::new(k2, data("b")));
    wb.write(Entry::new(k1, data("c")));
    let id = wb.id().to_string();
    let log = wb.log_bytes();
    let again = WriteBuffer::from(id.clone(), log.clone());
    assert_eq!(again.id(), id);
    assert_eq!(again.read(&k1), Some(data("c")));
    assert_eq!(again.read(&k2), Some(data("b")));
    assert_eq!(again.size(), 2);
    assert_eq!(again.log_bytes(), log);
}

#[test]
fn sstable_builder_test() {
    let mut wb = WriteBuffer::create();
    let (k1, k2, k3) = (Key::new(), Key::new(), Key::new());
    let sequence = vec![
        Entry::new(k1, data("okay1")),
        Entry::new(k2, data("ok2")),
        Entry::new(k1, EntryData::Deleted),
        Entry::new(k3, data("okayyy3")),
    ];
    for x in sequence {
        wb.write(x)
    }
    let id = wb.id().to_string();
    let log = wb.log_bytes();
    let b = wb.to_builder();
    assert_eq!(b.read(&k1), Some(EntryData::Deleted));
    assert_eq!(b.read(&k2), Some(data("ok2")));
    assert_eq!(b.read(&k3), Some(data("okayyy3")));
    assert_eq!(b.id(), id);
    assert_eq!(b.log_bytes(), log);
    let (gone, file) = b.delete();
    assert_eq!(gone, id);
    assert_eq!(file.into_bytes(), log);
}

#[test]
fn mod_test() {
    let mut wb = WriteBuffer::create();
    let (k1, k2, k3) = (Key::new(), Key::new(), Key::new());
    let sequence = vec![
        Entry::new(k1.clone(), data("okay1")),
        Entry::new(k2.clone(), data("ok2")),
        Entry::new(k1.clone(), EntryData::Deleted),
        Entry::new(k3.clone(), data("okayyy3")),
    ];
    for x in sequence {
        wb.write(x)
    }
    assert_eq!(wb.read(&k1), Some(EntryData::Deleted));
    assert_eq!(wb.read(&k2), Some(data("ok2")));
    assert_eq!(wb.read(&k3), Some(data("okayyy3")));
    let b = wb.to_builder();
    assert_eq!(b.read(&k1), Some(EntryData::Deleted));
    assert_eq!(b.read(&k2), Some(data("ok2")));
    assert_eq!(b.read(&k3), Some(data("okayyy3")));
    let t = b.build();
    let r = t.reader();
    assert_eq!(r.read(&k1), Ok(Some(EntryData::Deleted)));
    assert_eq!(r.read(&k2), Ok(Some(data("ok2"))));
    assert_eq!(r.read(&k3), Ok(Some(data("okayyy3"))));
    assert_eq!(t.id(), b.id());
    t.delete();
    b.delete();
}

#[test]
fn test_build() {
    let (k1, k2, k3) = (Key::new(), Key::new(), Key::new());
    let sequence = vec![
        Entry::new(k1, data("okay1")),
        Entry::new(k2, data("ok2")),
        Entry::new(k1, EntryData::Deleted),
        Entry::new(k3, data("okayyy3")),
    ];
    let t = build_sstable(sequence);
    let r = t.reader();
    assert_eq!(r.read(&k1), Ok(Some(EntryData::Deleted)));
    assert_eq!(r.read(&k2), Ok(Some(data("ok2"))));
    assert_eq!(r.read(&k3), Ok(Some(data("okayyy3"))));
    t.delete();
}

#[test]
fn test_merge() {
    let (k1, k2, k3, k4, k5) = (Key::new(), Key::new(), Key::new(), Key::new(), Key::new());
    let sequence1 = vec![
        Entry::new(k1, EntryData::Deleted),
        Entry::new(k2, data("ok2")),
        Entry::new(k3, data("okayyy3")),
        Entry::new(k4, data("okayy4")),
    ];
    let sequence2 = vec![
        Entry::new(k1, data("okay1")),
        Entry::new(k2, data("okk2")),
        Entry::new(k5, EntryData::Deleted),
    ];
    let sequence3: Vec<Entry<Vec<u8>>> = vec![
        Entry::new(k1, EntryData::Deleted),
        Entry::new(k2, data("ok2")),
        Entry::new(k3, data("okayyy3")),
        Entry::new(k4, data("okayy4")),
        Entry::new(k5, EntryData::Deleted),
    ];
    let t1 = build_sstable(sequence1);
    let t2 = build_sstable(sequence2);
    let t3 = SSTableBuilder::merge(&t1, &t2);

    let r = t3.reader();
    for Entry { key, data } in sequence3 {
        assert_eq!(r.read(&key).unwrap().unwrap(), data)
    }
    assert_eq!(t3.len(), 5);
    assert_eq!(t3.id().len(), 32);

    t1.delete();
    t2.delete();
    t3.delete();
}

fn keyed(byte: u8) -> Key {
    Key::Key([byte; KEY_SIZE])
}

#[test]
fn build_writes_entries_in_key_order() {
    let t = build_sstable(vec![
        Entry::new(keyed(9), data("nine")),
        Entry::new(keyed(3), data("three")),
        Entry::new(keyed(7), EntryData::Deleted),
        Entry::new(keyed(3), data("3")),
    ]);
    assert_eq!(t.len(), 3);
    let (offsets, strings) = t.images();
    let mut expected_strings = vec![0u8, b'3'];
    expected_strings.push(1);
    expected_strings.extend_from_slice(&[0, b'n', b'i', b'n', b'e']);
    assert_eq!(strings, expected_strings);
    let mut expected_offsets = Vec::new();
    expected_offsets.extend(get_offset_bytes(&OffsetEntry { key: keyed(3), offset: 0, length: 2 }));
    expected_offsets.extend(get_offset_bytes(&OffsetEntry { key: keyed(7), offset: 2, length: 1 }));
    expected_offsets.extend(get_offset_bytes(&OffsetEntry { key: keyed(9), offset: 3, length: 5 }));
    assert_eq!(offsets, expected_offsets);
    let r = t.reader();
    assert_eq!(r.len(), 3);
    assert_eq!(r.read_index(0), Ok(Some((keyed(3), data("3")))));
    assert_eq!(r.read_index(1), Ok(Some((keyed(7), EntryData::Deleted))));
    assert_eq!(r.read_index(2), Ok(Some((keyed(9), data("nine")))));
    assert_eq!(r.read_index(3), Ok(None));
    assert_eq!(r.read(&keyed(4)), Ok(None));
    assert_eq!(r.read(&keyed(0)), Ok(None));
    assert_eq!(r.read(&keyed(0xff)), Ok(None));
}

#[test]
fn binary_search_finds_every_entry() {
    let mut sequence = Vec::new();
    for i in 0..37u8 {
        sequence.push(Entry::new(keyed(i.wrapping_mul(7)), EntryData::Data(vec![i])));
    }
    let t = build_sstable(sequence);
    let r = t.reader();
    assert_eq!(r.len(), 37);
    for i in 0..37u8 {
        assert_eq!(r.read(&keyed(i.wrapping_mul(7))), Ok(Some(EntryData::Data(vec![i]))));
    }
    let mut previous = None;
    for i in 0..37u64 {
        let (k, _) = r.read_index(i).unwrap().unwrap();
        if let Some(p) = previous {
            assert!(p < k);
        }
        previous = Some(k);
    }
}

#[test]
fn empty_table() {
    let t = build_sstable(Vec::new());
    assert_eq!(t.len(), 0);
    assert_eq!(t.reader().read(&keyed(1)), Ok(None));
    assert_eq!(t.reader().read_index(0), Ok(None));
    let e = build_sstable(Vec::new());
    let m = SSTableBuilder::merge(&t, &e);
    assert_eq!(m.len(), 0);
}

#[test]
fn merge_keeps_the_younger_record_and_tombstones() {
    let young = build_sstable(vec![
        Entry::new(keyed(1), EntryData::Deleted),
        Entry::new(keyed(5), data("young5")),
    ]);
    let old = build_sstable(vec![
        Entry::new(keyed(1), data("old1")),
        Entry::new(keyed(2), data("old2")),
        Entry::new(keyed(5), data("old5")),
        Entry::new(keyed(8), EntryData::Deleted),
    ]);
    let merged = SSTableBuilder::merge(&young, &old);
    let r = merged.reader();
    assert_eq!(r.len(), 4);
    assert_eq!(r.read_index(0), Ok(Some((keyed(1), EntryData::Deleted))));
    assert_eq!(r.read_index(1), Ok(Some((keyed(2), data("old2")))));
    assert_eq!(r.read_index(2), Ok(Some((keyed(5), data("young5")))));
    assert_eq!(r.read_index(3), Ok(Some((keyed(8), EntryData::Deleted))));
    // the same as asking the young table first and the old one second
    for b in 0..10u8 {
        let k = keyed(b);
        let expected = match young.reader().read(&k).unwrap() {
            Some(x) => Some(x),
            None => old.reader().read(&k).unwrap(),
        };
        assert_eq!(r.read(&k), Ok(expected));
    }
}

#[test]
fn opening_a_table_checks_it() {
    let t = build_sstable(vec![Entry::new(keyed(1), data("a")), Entry::new(keyed(2), data("b"))]);
    let (offsets, strings) = t.images();
    let open = |o: Vec<u8>, s: Vec<u8>| {
        SSTable::new("t".to_string(), ImmutableFile::create(o), ImmutableFile::create(s))
            .map(|t| t.len())
    };
    assert_eq!(open(offsets.clone(), strings.clone()), Ok(2));
    assert_eq!(open(Vec::new(), Vec::new()), Ok(0));
    assert_eq!(open(offsets[..33].to_vec(), strings.clone()), Err(TableError::Misaligned));
    assert_eq!(open(offsets.clone(), strings[..3].to_vec()), Err(TableError::UnexpectedEof));
    let mut bad_tag = strings.clone();
    bad_tag[2] = 9;
    assert_eq!(open(offsets.clone(), bad_tag), Err(TableError::Corrupt));
    let mut swapped = offsets[32..].to_vec();
    swapped.extend_from_slice(&offsets[..32]);
    assert_eq!(open(swapped, strings.clone()), Err(TableError::Unsorted));
    let mut twice = offsets[..32].to_vec();
    twice.extend_from_slice(&offsets[..32]);
    assert_eq!(open(twice, strings), Err(TableError::Unsorted));
}

#[test]
fn reader_reports_what_is_wrong_with_a_slot() {
    let mut offsets = get_offset_bytes(&OffsetEntry { key: keyed(1), offset: 0, length: 4 });
    offsets.extend(get_offset_bytes(&OffsetEntry { key: keyed(2), offset: 1, length: 1 }));
    offsets.extend(get_offset_bytes(&OffsetEntry { key: keyed(3), offset: 1, length: 2 }));
    let o = ImmutableFile::create(offsets);
    let s = ImmutableFile::create(vec![0, 1, 7]);
    let t = SSTable::new("t".to_string(), o, s);
    assert_eq!(t.map(|t| t.len()), Err(TableError::UnexpectedEof));
}
