//! Value records and entries, and their byte encodings.

use crate::endian::{
    be_digits, be_value, lemma_be_digits_len, lemma_be_digits_of_value, lemma_be_value_bound,
    lemma_be_value_of_digits, lemma_radix_16,
};
use crate::key::{Key, KEY_SIZE};
use vstd::prelude::*;
use vstd::slice::{slice_subrange, slice_to_vec};

verus! {

/// What the store holds for a key: a value, or the mark of a deletion.
#[derive(Debug, Clone, PartialEq, Eq)]
pub enum EntryData<T> {
    Data(T),
    Deleted,
}

impl<T> EntryData<T> {
    /// The value, or `None` for a deletion.
    pub fn into_data(self) -> (r: Option<T>)
        ensures
            r == match self {
                EntryData::Data(x) => Some(x),
                EntryData::Deleted => None,
            },
    {
        match self {
            EntryData::Data(x) => Some(x),
            EntryData::Deleted => None,
        }
    }

    /// A reference to the value, or `None` for a deletion.
    pub fn data(&self) -> (r: Option<&T>)
        ensures
            r == match self {
                EntryData::Data(x) => Some(x),
                EntryData::Deleted => None,
            },
    {
        match self {
            EntryData::Data(x) => Some(x),
            EntryData::Deleted => None,
        }
    }

    /// The record for an optional value: `None` stands for a deletion.
    pub fn from_option(data: Option<T>) -> (r: EntryData<T>)
        ensures
            r == match data {
                Some(x) => EntryData::Data(x),
                None => EntryData::Deleted,
            },
    {
        match data {
            Some(x) => EntryData::Data(x),
            None => EntryData::Deleted,
        }
    }
}

/// One write: a key and what was written for it.
#[derive(Debug, PartialEq, Eq)]
pub struct Entry<T> {
    pub key: Key,
    pub data: EntryData<T>,
}

impl<T> Entry<T> {
    pub fn new(key: Key, data: EntryData<T>) -> (e: Entry<T>)
        ensures
            e.key == key,
            e.data == data,
    {
        Entry { key, data }
    }
}

/// First byte of the encoding of a value.
pub const TAG_DATA: u8 = 0;

/// The one byte that encodes a deletion.
pub const TAG_DELETED: u8 = 1;

/// The bytes that stand for a record: a tag byte, and after the tag of a
/// value the value itself. A deletion takes one byte.
pub open spec fn record_bytes(r: Option<Seq<u8>>) -> Seq<u8> {
    match r {
        Some(v) => seq![TAG_DATA] + v,
        None => seq![TAG_DELETED],
    }
}

/// The record that bytes stand for, if they stand for one.
pub open spec fn parse_record(b: Seq<u8>) -> Option<Option<Seq<u8>>> {
    if b.len() >= 1 && b[0] == TAG_DATA {
        Some(Some(b.skip(1)))
    } else if b.len() == 1 && b[0] == TAG_DELETED {
        Some(None)
    } else {
        None
    }
}

/// The bytes that stand for a write: the sixteen bytes of the key, then the
/// record.
pub open spec fn entry_bytes(e: (u128, Option<Seq<u8>>)) -> Seq<u8> {
    be_digits(e.0 as nat, KEY_SIZE as nat) + record_bytes(e.1)
}

/// The write that bytes stand for, if they stand for one.
pub open spec fn parse_entry(b: Seq<u8>) -> Option<(u128, Option<Seq<u8>>)> {
    if b.len() < KEY_SIZE {
        None
    } else {
        match parse_record(b.skip(KEY_SIZE as int)) {
            Some(r) => Some((be_value(b.take(KEY_SIZE as int)) as u128, r)),
            None => None,
        }
    }
}

/// Every record is read back from its bytes.
pub proof fn lemma_record_round_trip(r: Option<Seq<u8>>)
    ensures
        parse_record(record_bytes(r)) == Some(r),
        record_bytes(r).len() >= 1,
{
    match r {
        Some(v) => {
            assert((seq![TAG_DATA] + v).skip(1) =~= v);
        },
        None => {},
    }
}

/// Bytes that stand for a record are the bytes of that record: no record has
/// two encodings.
pub proof fn lemma_record_canonical(b: Seq<u8>)
    requires
        parse_record(b) is Some,
    ensures
        record_bytes(parse_record(b)->0) == b,
{
    match parse_record(b)->0 {
        Some(v) => {
            assert(seq![TAG_DATA] + b.skip(1) =~= b);
        },
        None => {
            assert(seq![TAG_DELETED] =~= b);
        },
    }
}

/// Every write is read back from its bytes.
pub proof fn lemma_entry_round_trip(e: (u128, Option<Seq<u8>>))
    ensures
        parse_entry(entry_bytes(e)) == Some(e),
        entry_bytes(e).len() >= KEY_SIZE + 1,
{
    let k = be_digits(e.0 as nat, KEY_SIZE as nat);
    let b = entry_bytes(e);
    lemma_be_digits_len(e.0 as nat, KEY_SIZE as nat);
    lemma_record_round_trip(e.1);
    lemma_radix_16();
    lemma_be_value_of_digits(e.0 as nat, KEY_SIZE as nat);
    assert(b.skip(KEY_SIZE as int) =~= record_bytes(e.1));
    assert(b.take(KEY_SIZE as int) =~= k);
}

/// Bytes that stand for a write are the bytes of that write.
pub proof fn lemma_entry_canonical(b: Seq<u8>)
    requires
        parse_entry(b) is Some,
    ensures
        entry_bytes(parse_entry(b)->0) == b,
{
    let k = b.take(KEY_SIZE as int);
    lemma_record_canonical(b.skip(KEY_SIZE as int));
    lemma_be_digits_of_value(k);
    lemma_be_value_bound(k);
    lemma_radix_16();
    assert(k + b.skip(KEY_SIZE as int) =~= b);
}

impl View for EntryData<Vec<u8>> {
    type V = Option<Seq<u8>>;

    open spec fn view(&self) -> Option<Seq<u8>> {
        match self {
            EntryData::Data(v) => Some(v@),
            EntryData::Deleted => None,
        }
    }
}

/// The model of the answer to a lookup: the record found, if any.
pub open spec fn found_view(r: Option<EntryData<Vec<u8>>>) -> Option<Option<Seq<u8>>> {
    match r {
        Some(d) => Some(d@),
        None => None,
    }
}

impl EntryData<Vec<u8>> {
    /// The bytes that stand for this record.
    pub fn encode(&self) -> (out: Vec<u8>)
        ensures
            out@ == record_bytes(self@),
    {
        let mut out: Vec<u8> = Vec::new();
        match self {
            EntryData::Data(v) => {
                out.push(TAG_DATA);
                out.extend_from_slice(v.as_slice());
                assert(out@ =~= seq![TAG_DATA] + v@);
            },
            EntryData::Deleted => {
                out.push(TAG_DELETED);
                assert(out@ =~= seq![TAG_DELETED]);
            },
        }
        out
    }

    /// The record that `bytes` stand for, or `None` where they stand for none.
    pub fn decode(bytes: &[u8]) -> (r: Option<EntryData<Vec<u8>>>)
        ensures
            match r {
                Some(d) => parse_record(bytes@) == Some(d@),
                None => parse_record(bytes@) is None,
            },
    {
        if bytes.len() >= 1 && bytes[0] == TAG_DATA {
            let v = slice_to_vec(slice_subrange(bytes, 1, bytes.len()));
            assert(v@ =~= bytes@.skip(1));
            Some(EntryData::Data(v))
        } else if bytes.len() == 1 && bytes[0] == TAG_DELETED {
            Some(EntryData::Deleted)
        } else {
            None
        }
    }
}

impl View for Entry<Vec<u8>> {
    type V = (u128, Option<Seq<u8>>);

    open spec fn view(&self) -> (u128, Option<Seq<u8>>) {
        (self.key.spec_rank(), self.data@)
    }
}

impl Entry<Vec<u8>> {
    /// The bytes that stand for this write.
    pub fn encode(&self) -> (out: Vec<u8>)
        ensures
            out@ == entry_bytes(self@),
    {
        let mut out: Vec<u8> = Vec::new();
        out.extend_from_slice(self.key.bytes().as_slice());
        let record = self.data.encode();
        out.extend_from_slice(record.as_slice());
        proof {
            lemma_be_digits_of_value(self.key@);
            lemma_be_value_bound(self.key@);
            lemma_radix_16();
            assert(out@ =~= self.key@ + record@);
        }
        out
    }

    /// The write that `bytes` stand for, or `None` where they stand for none.
    pub fn decode(bytes: &[u8]) -> (r: Option<Entry<Vec<u8>>>)
        ensures
            match r {
                Some(e) => parse_entry(bytes@) == Some(e@),
                None => parse_entry(bytes@) is None,
            },
    {
        if bytes.len() < KEY_SIZE {
            return None;
        }
        let head = slice_subrange(bytes, 0, KEY_SIZE);
        let tail = slice_subrange(bytes, KEY_SIZE, bytes.len());
        assert(head@ =~= bytes@.take(KEY_SIZE as int));
        assert(tail@ =~= bytes@.skip(KEY_SIZE as int));
        match EntryData::decode(tail) {
            Some(data) => {
                let key = Key::from_slice(head);
                Some(Entry { key, data })
            },
            None => None,
        }
    }
}

} // verus!
