//! The write-ahead log: one record per write, each a length and a payload.

use crate::endian::{
    be_digits, be_value, lemma_be_digits_len, lemma_be_digits_of_value, lemma_be_value_bound,
    lemma_be_value_of_digits, lemma_radix_8, radix, read_be_u64, write_be,
};
use crate::entry::{
    entry_bytes, lemma_entry_canonical, lemma_entry_round_trip, parse_entry, Entry,
};
use crate::files::{AppendableFile, ImmutableFile};
use vstd::prelude::*;
use vstd::slice::slice_subrange;

verus! {

/// Number of bytes of the length that starts a record.
pub const LENGTH_SIZE: usize = 8;

/// A record of the log: the length of the payload as eight big-endian bytes,
/// then the payload.
pub open spec fn frame(payload: Seq<u8>) -> Seq<u8> {
    be_digits(payload.len(), LENGTH_SIZE as nat) + payload
}

/// The log that holds the given writes, in order, and nothing else.
pub open spec fn log_bytes(entries: Seq<(u128, Option<Seq<u8>>)>) -> Seq<u8>
    decreases entries.len(),
{
    if entries.len() == 0 {
        Seq::empty()
    } else {
        log_bytes(entries.drop_last()) + frame(entry_bytes(entries.last()))
    }
}

/// The write in the first record of `b` and the bytes after that record, or
/// `None` where `b` does not start with a whole record that holds a write.
pub open spec fn first_record(b: Seq<u8>) -> Option<((u128, Option<Seq<u8>>), Seq<u8>)> {
    if b.len() < LENGTH_SIZE {
        None
    } else {
        let size = be_value(b.take(LENGTH_SIZE as int));
        let rest = b.skip(LENGTH_SIZE as int);
        if rest.len() < size {
            None
        } else {
            match parse_entry(rest.take(size as int)) {
                Some(e) => Some((e, rest.skip(size as int))),
                None => None,
            }
        }
    }
}

/// The writes that a log holds: those of its records, in order, up to the
/// end or to the first place that holds no whole record.
pub open spec fn replay(b: Seq<u8>) -> Seq<(u128, Option<Seq<u8>>)>
    decreases b.len(),
{
    match first_record(b) {
        Some((e, rest)) => if rest.len() < b.len() {
            seq![e] + replay(rest)
        } else {
            Seq::empty()
        },
        None => Seq::empty(),
    }
}

/// Every write of the sequence takes fewer bytes than a record's length
/// field can count.
pub open spec fn entries_fit(entries: Seq<(u128, Option<Seq<u8>>)>) -> bool {
    forall|i: int| 0 <= i < entries.len() ==> (#[trigger] entry_bytes(entries[i])).len() < radix(8)
}

/// The writes that a vector of entries stands for.
pub open spec fn writes(v: Seq<Entry<Vec<u8>>>) -> Seq<(u128, Option<Seq<u8>>)> {
    Seq::new(v.len(), |i: int| v[i]@)
}

/// A record in front of other bytes is read as its write, and leaves those
/// bytes.
pub proof fn lemma_first_record_of_frame(e: (u128, Option<Seq<u8>>), rest: Seq<u8>)
    requires
        entry_bytes(e).len() < radix(8),
    ensures
        first_record(frame(entry_bytes(e)) + rest) == Some((e, rest)),
{
    let p = entry_bytes(e);
    let b = frame(p) + rest;
    lemma_be_digits_len(p.len(), LENGTH_SIZE as nat);
    lemma_be_value_of_digits(p.len(), LENGTH_SIZE as nat);
    lemma_entry_round_trip(e);
    assert(b.take(LENGTH_SIZE as int) =~= be_digits(p.len(), LENGTH_SIZE as nat));
    assert(b.skip(LENGTH_SIZE as int) =~= p + rest);
    assert((p + rest).take(p.len() as int) =~= p);
    assert((p + rest).skip(p.len() as int) =~= rest);
}

pub proof fn lemma_log_bytes_front(e: (u128, Option<Seq<u8>>), es: Seq<(u128, Option<Seq<u8>>)>)
    ensures
        log_bytes(seq![e] + es) == frame(entry_bytes(e)) + log_bytes(es),
    decreases es.len(),
{
    let all = seq![e] + es;
    if es.len() == 0 {
        assert(all.len() == 1);
        assert(all.last() == e);
        assert(all.drop_last().len() == 0);
        assert(log_bytes(all.drop_last()) =~= Seq::<u8>::empty());
        assert(log_bytes(es) =~= Seq::<u8>::empty());
        assert(log_bytes(all) =~= frame(entry_bytes(e)) + log_bytes(es));
    } else {
        assert(all.drop_last() =~= seq![e] + es.drop_last());
        assert(all.last() == es.last());
        lemma_log_bytes_front(e, es.drop_last());
        assert(log_bytes(all) =~= frame(entry_bytes(e)) + log_bytes(es));
    }
}

/// Replaying a log that holds the given writes, followed by any bytes,
/// yields those writes and then what the following bytes replay to.
pub proof fn lemma_replay_log(es: Seq<(u128, Option<Seq<u8>>)>, tail: Seq<u8>)
    requires
        entries_fit(es),
    ensures
        replay(log_bytes(es) + tail) == es + replay(tail),
    decreases es.len(),
{
    if es.len() == 0 {
        assert(log_bytes(es) + tail =~= tail);
        assert(es + replay(tail) =~= replay(tail));
    } else {
        let e = es.first();
        let rest = es.drop_first();
        assert(es =~= seq![e] + rest);
        lemma_log_bytes_front(e, rest);
        assert(entry_bytes(es[0]).len() < radix(8));
        assert(entries_fit(rest)) by {
            assert forall|i: int| 0 <= i < rest.len() implies (#[trigger] entry_bytes(
                rest[i],
            )).len() < radix(8) by {
                assert(rest[i] == es[i + 1]);
            }
        }
        let b = log_bytes(es) + tail;
        let after = log_bytes(rest) + tail;
        assert(b =~= frame(entry_bytes(e)) + after);
        lemma_first_record_of_frame(e, after);
        lemma_be_digits_len(entry_bytes(e).len(), LENGTH_SIZE as nat);
        assert(after.len() < b.len());
        lemma_replay_log(rest, tail);
        assert(replay(b) =~= es + replay(tail));
    }
}

/// Writing any number of entries and reading the log back yields exactly
/// those entries, in order.
pub proof fn lemma_wal_round_trip(es: Seq<(u128, Option<Seq<u8>>)>)
    requires
        entries_fit(es),
    ensures
        replay(log_bytes(es)) == es,
{
    lemma_replay_log(es, Seq::empty());
    assert(log_bytes(es) + Seq::<u8>::empty() =~= log_bytes(es));
    assert(first_record(Seq::<u8>::empty()) is None);
    assert(es + replay(Seq::<u8>::empty()) =~= es);
}

/// What a record is read as, it is the record of: the bytes before the rest
/// are the frame of the write.
pub proof fn lemma_first_record_canonical(b: Seq<u8>)
    requires
        first_record(b) is Some,
    ensures
        b == frame(entry_bytes((first_record(b)->0).0)) + (first_record(b)->0).1,
        entry_bytes((first_record(b)->0).0).len() < radix(8),
        (first_record(b)->0).1.len() < b.len(),
{
    let head = b.take(LENGTH_SIZE as int);
    let size = be_value(head);
    let rest = b.skip(LENGTH_SIZE as int);
    let payload = rest.take(size as int);
    lemma_entry_canonical(payload);
    lemma_be_digits_of_value(head);
    lemma_be_value_bound(head);
    assert(head + (payload + rest.skip(size as int)) =~= b);
    assert(frame(payload) + rest.skip(size as int) =~= b);
}

/// What replay yields from any bytes fits in records, and the log of it is
/// the part of the bytes that replay went through.
pub proof fn lemma_replay_prefix(b: Seq<u8>)
    ensures
        entries_fit(replay(b)),
        log_bytes(replay(b)).len() <= b.len(),
        log_bytes(replay(b)) == b.take(log_bytes(replay(b)).len() as int),
        replay(b.skip(log_bytes(replay(b)).len() as int)) == Seq::<(u128, Option<Seq<u8>>)>::empty(),
    decreases b.len(),
{
    match first_record(b) {
        Some((e, rest)) => {
            lemma_first_record_canonical(b);
            lemma_replay_prefix(rest);
            let es = replay(rest);
            lemma_log_bytes_front(e, es);
            let f = frame(entry_bytes(e));
            let n = log_bytes(es).len();
            assert(replay(b) == seq![e] + es);
            assert(entries_fit(replay(b))) by {
                assert forall|i: int| 0 <= i < replay(b).len() implies (#[trigger] entry_bytes(
                    replay(b)[i],
                )).len() < radix(8) by {
                    if i > 0 {
                        assert(replay(b)[i] == es[i - 1]);
                    }
                }
            }
            assert(b.take((f.len() + n) as int) =~= f + rest.take(n as int));
            assert(b.skip((f.len() + n) as int) =~= rest.skip(n as int));
        },
        None => {
            assert(b.take(0) =~= Seq::<u8>::empty());
            assert(b.skip(0) =~= b);
        },
    }
}

/// Reads the first record of `remaining`: the entry it holds and the bytes
/// after it, or `None` where no whole record that holds an entry is there.
pub fn read_entry(remaining: &[u8]) -> (r: Option<(Entry<Vec<u8>>, &[u8])>)
    ensures
        match r {
            Some((entry, rest)) => first_record(remaining@) == Some((entry@, rest@)),
            None => first_record(remaining@) is None,
        },
{
    if remaining.len() < LENGTH_SIZE {
        return None;
    }
    let head = slice_subrange(remaining, 0, LENGTH_SIZE);
    let rest = slice_subrange(remaining, LENGTH_SIZE, remaining.len());
    assert(head@ =~= remaining@.take(LENGTH_SIZE as int));
    assert(rest@ =~= remaining@.skip(LENGTH_SIZE as int));
    let size = read_be_u64(head);
    if (rest.len() as u64) < size {
        return None;
    }
    let size = size as usize;
    let data = slice_subrange(rest, 0, size);
    let after = slice_subrange(rest, size, rest.len());
    assert(data@ =~= rest@.take(size as int));
    assert(after@ =~= rest@.skip(size as int));
    match Entry::decode(data) {
        Some(entry) => Some((entry, after)),
        None => None,
    }
}

/// The record of an entry: what a write of the entry appends to the log.
pub fn wal_record(item: &Entry<Vec<u8>>) -> (record: Vec<u8>)
    ensures
        record@ == frame(entry_bytes(item@)),
        entry_bytes(item@).len() <= usize::MAX,
{
    let payload = item.encode();
    let mut record: Vec<u8> = Vec::new();
    write_be(&mut record, payload.len() as u128, LENGTH_SIZE);
    record.extend_from_slice(payload.as_slice());
    assert(record@ =~= frame(entry_bytes(item@)));
    record
}

/// A write-ahead log.
#[derive(Debug)]
pub struct WAL {
    file: AppendableFile,
}

impl View for WAL {
    type V = Seq<u8>;

    closed spec fn view(&self) -> Seq<u8> {
        self.file@
    }
}

impl WAL {
    /// The log consists of whole records, each of which holds a write.
    pub open spec fn wf(&self) -> bool {
        log_bytes(replay(self@)) == self@
    }

    /// Opens the log whose file holds `bytes`: the entries of its records, in
    /// order, and a log that holds exactly those records. Bytes after the
    /// last whole record are dropped.
    pub fn open(bytes: Vec<u8>) -> (r: (WAL, Vec<Entry<Vec<u8>>>))
        ensures
            writes(r.1@) == replay(bytes@),
            r.0@ == log_bytes(replay(bytes@)),
            r.0.wf(),
    {
        let mut bytes = bytes;
        let ghost all = bytes@;
        let mut entries: Vec<Entry<Vec<u8>>> = Vec::new();
        let mut pos: usize = 0;
        assert(writes(entries@) =~= Seq::empty());
        assert(all.take(0) =~= log_bytes(writes(entries@)));
        assert(all.skip(0) =~= all);
        loop
            invariant
                bytes@ == all,
                pos <= all.len(),
                entries_fit(writes(entries@)),
                all.take(pos as int) == log_bytes(writes(entries@)),
                replay(all) == writes(entries@) + replay(all.skip(pos as int)),
            ensures
                replay(all) == writes(entries@),
                pos == log_bytes(replay(all)).len() <= all.len(),
                all.take(pos as int) == log_bytes(replay(all)),
                bytes@ == all,
            decreases all.len() - pos,
        {
            let remaining = slice_subrange(bytes.as_slice(), pos, bytes.len());
            assert(remaining@ =~= all.skip(pos as int));
            match read_entry(remaining) {
                Some((entry, rest)) => {
                    proof {
                        lemma_first_record_canonical(remaining@);
                        let f = frame(entry_bytes(entry@));
                        let ws = writes(entries@);
                        assert(writes(entries@.push(entry)) =~= ws.push(entry@));
                        assert(ws.push(entry@).drop_last() =~= ws);
                        assert(all.take(pos + f.len()) =~= all.take(pos as int) + f) by {
                            assert(remaining@.take(f.len() as int) =~= f);
                        }
                        assert(all.skip(pos + f.len()) =~= rest@);
                        assert(replay(remaining@) == seq![entry@] + replay(rest@));
                        assert(ws + (seq![entry@] + replay(rest@)) =~= ws.push(entry@) + replay(
                            rest@,
                        ));
                    }
                    let next = bytes.len() - rest.len();
                    entries.push(entry);
                    pos = next;
                },
                None => {
                    proof {
                        assert(replay(all.skip(pos as int)) =~= Seq::empty());
                        assert(writes(entries@) + Seq::empty() =~= writes(entries@));
                    }
                    break ;
                },
            }
        }
        bytes.truncate(pos);
        assert(bytes@ =~= all.take(pos as int));
        let wal = WAL { file: AppendableFile::new(bytes) };
        proof {
            lemma_replay_prefix(all);
            lemma_wal_round_trip(replay(all));
        }
        (wal, entries)
    }

    /// Appends the record of `item` to the log.
    pub fn write(&mut self, item: &Entry<Vec<u8>>)
        requires
            old(self).wf(),
        ensures
            final(self).wf(),
            final(self)@ == old(self)@ + frame(entry_bytes(item@)),
            replay(final(self)@) == replay(old(self)@).push(item@),
    {
        let record = wal_record(item);
        self.file.append(record.as_slice());
        proof {
            let es = replay(old(self)@);
            let after = es.push(item@);
            lemma_replay_prefix(old(self)@);
            lemma_radix_8();
            assert(after.drop_last() =~= es);
            assert(entries_fit(after));
            lemma_wal_round_trip(after);
        }
    }

    /// Empties the log.
    pub fn clear(&mut self)
        ensures
            final(self)@ == Seq::<u8>::empty(),
            final(self).wf(),
    {
        self.file.clear();
        assert(first_record(Seq::<u8>::empty()) is None);
    }

    /// The number of bytes in the log.
    pub fn size(&self) -> (n: u64)
        ensures
            n == self@.len(),
    {
        self.file.size()
    }

    /// A copy of the bytes of the log.
    pub fn bytes(&self) -> (b: Vec<u8>)
        ensures
            b@ == self@,
    {
        self.file.bytes()
    }

    /// Ends the writing and hands the log over as a file that no longer
    /// changes.
    pub fn close(self) -> (f: ImmutableFile)
        ensures
            f@ == self@,
    {
        self.file.close()
    }
}

} // verus!
