use locker_db::endian::{read_be, read_be_u64, write_be};
use locker_db::entry::{Entry, EntryData};
use locker_db::files::{AppendableFile, FileError, ImmutableFile};
use locker_db::key::{Key, KEY_SIZE};
use locker_db::sstable::{get_offset_bytes, OffsetEntry, ENTRY_SIZE};
use locker_db::wal::{read_entry, wal_record, WAL};

fn key(byte: u8) -> Key {
    Key::Key([byte; KEY_SIZE])
}

fn entry(k: Key, value: &str) -> Entry<Vec<u8>> {
    Entry::new(k, EntryData::Data(value.as_bytes().to_vec()))
}

#[test]
fn mod_it_works() {
    let file = ImmutableFile::create("hello".as_bytes().to_vec());
    let reader = file.new_reader();
    assert_eq!(reader.size(), 5);
    let buf = reader.read_fixed::<3>(2).unwrap();
    assert_eq!(buf, "llo".as_bytes());

    let file = ImmutableFile::create(file.into_bytes());
    let reader = file.new_reader();
    assert_eq!(reader.size(), 5);
    let buf = reader.read_fixed::<3>(2).unwrap();
    assert_eq!(buf, "llo".as_bytes());
    assert_eq!(reader.read(2, 3).unwrap(), "llo".as_bytes().to_vec());
    assert_eq!(reader.read_all(), "hello".as_bytes().to_vec());
}

#[test]
fn reads_past_the_end_fail() {
    let file = ImmutableFile::create("hello".as_bytes().to_vec());
    let reader = file.new_reader();
    assert_eq!(reader.read(3, 3), Err(FileError::UnexpectedEof));
    assert_eq!(reader.read(6, 0), Err(FileError::UnexpectedEof));
    assert_eq!(reader.read(5, 0), Ok(Vec::new()));
    assert_eq!(reader.read(u64::MAX, 2), Err(FileError::UnexpectedEof));
    assert_eq!(reader.read_fixed::<3>(3), Err(FileError::UnexpectedEof));
    assert_eq!(reader.read_fixed::<5>(0), Ok(*b"hello"));
}

#[test]
fn appendable_file_grows_and_clears() {
    let mut file = AppendableFile::new(Vec::new());
    assert_eq!(file.size(), 0);
    file.append(b"ab");
    file.append(b"cde");
    assert_eq!(file.size(), 5);
    assert_eq!(file.bytes(), b"abcde".to_vec());
    file.clear();
    assert_eq!(file.size(), 0);
    file.append(b"x");
    assert_eq!(file.close().into_bytes(), b"x".to_vec());
}

#[test]
fn big_endian_numbers() {
    let mut out = vec![9u8];
    write_be(&mut out, 0x0102, 8);
    assert_eq!(out, vec![9, 0, 0, 0, 0, 0, 0, 1, 2]);
    assert_eq!(read_be_u64(&out[1..]), 0x0102);
    assert_eq!(read_be(&[1, 0]), 256);
    assert_eq!(read_be(&[]), 0);
    let mut wide = Vec::new();
    write_be(&mut wide, u128::MAX, 16);
    assert_eq!(wide, vec![0xff; 16]);
    assert_eq!(read_be(&wide), u128::MAX);
    let mut cut = Vec::new();
    write_be(&mut cut, 0x010203, 2);
    assert_eq!(cut, vec![2, 3]);
}

#[test]
fn key_hex_is_lower_case_and_in_order() {
    let mut bytes = [0u8; KEY_SIZE];
    for (i, b) in bytes.iter_mut().enumerate() {
        *b = (i as u8) * 17;
    }
    bytes[15] = 0xaf;
    let k = Key::Key(bytes);
    assert_eq!(k.hex(), "00112233445566778899aabbccddeeaf");
    assert_eq!(key(0).hex(), "00000000000000000000000000000000");
    assert_eq!(k.bytes(), &bytes);
}

#[test]
fn key_rank_orders_as_the_bytes_do() {
    let mut low = [0u8; KEY_SIZE];
    low[15] = 0xff;
    let mut high = [0u8; KEY_SIZE];
    high[14] = 1;
    assert!(Key::Key(low) < Key::Key(high));
    assert!(Key::Key(low).rank() < Key::Key(high).rank());
    assert_eq!(Key::Key(low).rank(), 255);
    assert_eq!(Key::Key(high).rank(), 256);
    assert_eq!(key(0xff).rank(), u128::MAX);
    assert_eq!(Key::from_rank(256), Key::Key(high));
    assert_eq!(Key::from_slice(&high), Key::Key(high));
}

#[test]
fn fresh_keys_differ() {
    let a = Key::new();
    let b = Key::new();
    assert_ne!(a, b);
    assert_eq!(a.hex().len(), 32);
}

#[test]
fn entry_data_accessors() {
    let d = EntryData::Data(7u32);
    assert_eq!(d.data(), Some(&7));
    assert_eq!(d.into_data(), Some(7));
    let gone: EntryData<u32> = EntryData::Deleted;
    assert_eq!(gone.data(), None);
    assert_eq!(gone.into_data(), None);
    assert_eq!(EntryData::from_option(Some(1u8)), EntryData::Data(1));
    assert_eq!(EntryData::<u8>::from_option(None), EntryData::Deleted);
}

#[test]
fn record_bytes_are_a_tag_and_the_value() {
    assert_eq!(EntryData::Data(b"ab".to_vec()).encode(), vec![0, b'a', b'b']);
    assert_eq!(EntryData::Data(Vec::new()).encode(), vec![0]);
    assert_eq!(EntryData::<Vec<u8>>::Deleted.encode(), vec![1]);
    assert_eq!(EntryData::decode(&[0, 5, 6]), Some(EntryData::Data(vec![5, 6])));
    assert_eq!(EntryData::decode(&[0]), Some(EntryData::Data(Vec::new())));
    assert_eq!(EntryData::decode(&[1]), Some(EntryData::Deleted));
    assert_eq!(EntryData::decode(&[1, 0]), None);
    assert_eq!(EntryData::decode(&[2]), None);
    assert_eq!(EntryData::decode(&[]), None);
}

#[test]
fn entry_bytes_are_the_key_and_the_record() {
    let e = entry(key(0x11), "a");
    let mut expected = vec![0x11u8; 16];
    expected.extend_from_slice(&[0, b'a']);
    assert_eq!(e.encode(), expected);
    assert_eq!(Entry::decode(&expected), Some(e));
    assert_eq!(Entry::decode(&expected[..16]), None);
    assert_eq!(Entry::decode(&expected[..15]), None);
    let gone = Entry::new(key(0x22), EntryData::Deleted);
    assert_eq!(Entry::decode(&gone.encode()), Some(gone));
}

#[test]
fn offset_record_is_32_bytes() {
    let bytes = get_offset_bytes(&OffsetEntry { key: key(0xab), offset: 0x0102, length: 3 });
    let mut expected = vec![0xabu8; 16];
    expected.extend_from_slice(&[0, 0, 0, 0, 0, 0, 1, 2]);
    expected.extend_from_slice(&[0, 0, 0, 0, 0, 0, 0, 3]);
    assert_eq!(bytes, expected);
    assert_eq!(bytes.len(), ENTRY_SIZE);
}

#[test]
fn wal_record_is_length_then_payload() {
    let e = entry(key(0x11), "a");
    let mut expected = vec![0, 0, 0, 0, 0, 0, 0, 18];
    expected.extend_from_slice(&e.encode());
    assert_eq!(wal_record(&e), expected);
    let (read, rest) = read_entry(&expected).unwrap();
    assert_eq!(read, e);
    assert!(rest.is_empty());
}

#[test]
fn read_entry_rejects_short_and_invalid_records() {
    let e = entry(key(0x11), "abc");
    let record = wal_record(&e);
    assert!(read_entry(&[]).is_none());
    assert!(read_entry(&record[..7]).is_none());
    assert!(read_entry(&record[..record.len() - 1]).is_none());
    let mut two = record.clone();
    two.extend_from_slice(&[9, 9]);
    let (read, rest) = read_entry(&two).unwrap();
    assert_eq!(read, e);
    assert_eq!(rest, &[9, 9]);
    // a whole record whose payload is no entry
    let bad = vec![0, 0, 0, 0, 0, 0, 0, 1, 7];
    assert!(read_entry(&bad).is_none());
}

#[test]
fn wal_test() {
    let (mut wal, remaining) = WAL::open(Vec::new());
    assert_eq!(remaining.len(), 0);
    wal.write(&entry(key(1), "Hi!"));
    wal.write(&entry(key(2), "Hello there!"));
    wal.write(&entry(key(3), "Sup bro"));
    let bytes = wal.close().into_bytes();
    let (w, remaining) = WAL::open(bytes.clone());
    assert_eq!(w.bytes(), bytes);
    assert_eq!(
        remaining,
        vec![entry(key(1), "Hi!"), entry(key(2), "Hello there!"), entry(key(3), "Sup bro")]
    );
}

#[test]
fn wal_replay_stops_at_a_torn_tail() {
    let (mut wal, _) = WAL::open(Vec::new());
    wal.write(&entry(key(1), "one"));
    wal.write(&Entry::new(key(1), EntryData::Deleted));
    let whole = wal.bytes();
    let mut torn = whole.clone();
    let next = wal_record(&entry(key(2), "two"));
    torn.extend_from_slice(&next[..next.len() - 2]);
    let (reopened, entries) = WAL::open(torn);
    assert_eq!(entries, vec![entry(key(1), "one"), Entry::new(key(1), EntryData::Deleted)]);
    assert_eq!(reopened.bytes(), whole);
    assert_eq!(reopened.size(), whole.len() as u64);
}

#[test]
fn wal_clear_empties_the_log() {
    let (mut wal, _) = WAL::open(Vec::new());
    wal.write(&entry(key(1), "one"));
    wal.clear();
    assert_eq!(wal.size(), 0);
    wal.write(&entry(key(2), "two"));
    let (_, entries) = WAL::open(wal.bytes());
    assert_eq!(entries, vec![entry(key(2), "two")]);
}

#[test]
fn key_from_hex_reads_32_digits_of_either_case() {
    let k1 = Key::from_hex("11111111111111111111111111111111").unwrap();
    assert_eq!(k1, key(0x11));
    assert_eq!(Key::from_hex("00000000000000000000000000000000"), Some(key(0)));
    let mixed = Key::from_hex("00112233445566778899aAbBcCdDeEfF").unwrap();
    assert_eq!(mixed.hex(), "00112233445566778899aabbccddeeff");
    assert_eq!(mixed.bytes()[10], 0xaa);
    assert_eq!(mixed.bytes()[15], 0xff);
    assert_eq!(Key::from_hex(&mixed.hex()), Some(mixed));
    let fresh = Key::new();
    assert_eq!(Key::from_hex(&fresh.hex()), Some(fresh));
}

#[test]
fn key_from_hex_rejects_other_strings() {
    assert_eq!(Key::from_hex(""), None);
    assert_eq!(Key::from_hex("1111111111111111111111111111111"), None);
    assert_eq!(Key::from_hex("111111111111111111111111111111111"), None);
    assert_eq!(Key::from_hex("1111111111111111111111111111111111"), None);
    assert_eq!(Key::from_hex("1111111111111111111111111111111g"), None);
    assert_eq!(Key::from_hex("1111111111111111111111111111111 "), None);
    assert_eq!(Key::from_hex("111111111111111111111111111111é"), None);
    assert_eq!(Key::from_hex("1111111111111111111111111111111é"), None);
}
