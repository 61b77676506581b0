//! Keys: sixteen opaque bytes, ordered lexicographically.

use crate::endian::{
    be_value, lemma_be_digits_len, lemma_be_value_bound, lemma_be_value_injective,
    lemma_be_value_of_digits, lemma_lex_lt_is_numeric, lemma_radix_16, lex_lt, read_be, write_be,
};
use vstd::prelude::*;

verus! {

/// Number of bytes in a key.
pub const KEY_SIZE: usize = 16;

/// A key of the store. The store never looks inside the bytes; it only
/// compares keys, and the order is the lexicographic order of the bytes.
#[derive(Debug, PartialEq, Eq, PartialOrd, Ord, Hash, Clone, Copy)]
pub enum Key {
    Key([u8; KEY_SIZE]),
}

impl View for Key {
    type V = Seq<u8>;

    open spec fn view(&self) -> Seq<u8> {
        match self {
            Key::Key(b) => b@,
        }
    }
}

/// The two lower-case hexadecimal digits of each byte, in order.
pub open spec fn hex_string(bytes: Seq<u8>) -> Seq<char>
    decreases bytes.len(),
{
    if bytes.len() == 0 {
        Seq::empty()
    } else {
        hex_string(bytes.drop_last()).push(hex_digit(bytes.last() / 16)).push(
            hex_digit(bytes.last() % 16),
        )
    }
}

/// The lower-case hexadecimal digit for a value below sixteen.
pub open spec fn hex_digit(n: u8) -> char {
    seq!['0', '1', '2', '3', '4', '5', '6', '7', '8', '9', 'a', 'b', 'c', 'd', 'e', 'f'][n as int]
}

/// The string is the hexadecimal form of some key.
pub open spec fn is_key_hex(id: Seq<char>) -> bool {
    exists|bytes: Seq<u8>| bytes.len() == KEY_SIZE && id == #[trigger] hex_string(bytes)
}

pub proof fn lemma_hex_string_len(bytes: Seq<u8>)
    ensures
        hex_string(bytes).len() == 2 * bytes.len(),
    decreases bytes.len(),
{
    if bytes.len() > 0 {
        lemma_hex_string_len(bytes.drop_last());
    }
}

/// No hexadecimal string holds a dot.
pub proof fn lemma_hex_string_has_no_dot(bytes: Seq<u8>)
    ensures
        forall|i: int| 0 <= i < hex_string(bytes).len() ==> hex_string(bytes)[i] != '.',
    decreases bytes.len(),
{
    if bytes.len() > 0 {
        lemma_hex_string_has_no_dot(bytes.drop_last());
        lemma_hex_string_len(bytes.drop_last());
        let hi = bytes.last() / 16;
        let lo = bytes.last() % 16;
        assert(hex_digit(hi) != '.');
        assert(hex_digit(lo) != '.');
    }
}

/// The value of a hexadecimal digit of either case, or `None` for any other
/// character.
pub open spec fn hex_value(c: char) -> Option<u8> {
    let n = c as u32;
    if 48 <= n <= 57 {
        Some((n - 48) as u8)
    } else if 97 <= n <= 102 {
        Some((n - 87) as u8)
    } else if 65 <= n <= 70 {
        Some((n - 55) as u8)
    } else {
        None
    }
}

/// The bytes that a string of hexadecimal digits, two for each byte, stands
/// for, or `None` where the string is of odd length or holds another
/// character.
pub open spec fn parse_hex(s: Seq<char>) -> Option<Seq<u8>> {
    if s.len() % 2 == 0 && forall|i: int| 0 <= i < s.len() ==> hex_value(#[trigger] s[i]) is Some {
        Some(
            Seq::new(
                s.len() / 2,
                |i: int| (16 * hex_value(s[2 * i])->0 + hex_value(s[2 * i + 1])->0) as u8,
            ),
        )
    } else {
        None
    }
}

/// The hexadecimal form of bytes is read back as those bytes.
pub proof fn lemma_parse_hex_of_hex_string(bytes: Seq<u8>)
    ensures
        parse_hex(hex_string(bytes)) == Some(bytes),
    decreases bytes.len(),
{
    let s = hex_string(bytes);
    lemma_hex_string_len(bytes);
    if bytes.len() == 0 {
        assert(parse_hex(s)->0 =~= bytes);
    } else {
        let shorter = bytes.drop_last();
        let p = hex_string(shorter);
        lemma_parse_hex_of_hex_string(shorter);
        lemma_hex_string_len(shorter);
        let hi = bytes.last() / 16;
        let lo = bytes.last() % 16;
        assert(hex_value(hex_digit(hi)) == Some(hi));
        assert(hex_value(hex_digit(lo)) == Some(lo));
        assert forall|i: int| 0 <= i < s.len() implies hex_value(#[trigger] s[i]) is Some by {
            if i < p.len() {
                assert(s[i] == p[i]);
            }
        }
        let out = parse_hex(s)->0;
        assert(out =~= bytes) by {
            assert forall|i: int| 0 <= i < bytes.len() implies out[i] == bytes[i] by {
                if i < shorter.len() {
                    assert(s[2 * i] == p[2 * i]);
                    assert(s[2 * i + 1] == p[2 * i + 1]);
                    assert(parse_hex(p)->0[i] == shorter[i]);
                }
            }
        }
    }
}

/// `hex::FromHexError`, taken as it is: of a failed decoding only that it
/// failed is used.
#[verifier::external_type_specification]
#[verifier::external_body]
pub struct ExFromHexError(hex::FromHexError);

/// Calls `hex::decode_to_slice` with sixteen bytes to fill. It succeeds on a
/// string of exactly 32 hexadecimal digits, of either case, and then fills
/// each byte from two digits, the high half first.
#[verifier::external_body]
fn hex_decode(s: &str) -> (r: Result<[u8; KEY_SIZE], hex::FromHexError>)
    ensures
        match r {
            Ok(bytes) => s@.len() == 2 * KEY_SIZE && parse_hex(s@) == Some(bytes@),
            Err(_) => s@.len() != 2 * KEY_SIZE || parse_hex(s@) is None,
        },
{
    let mut bytes: [u8; KEY_SIZE] = [0; KEY_SIZE];
    hex::decode_to_slice(s, &mut bytes).map(|_| bytes)
}

/// Calls `hex::encode`, which writes each byte of its argument as two digits
/// taken from the table `0123456789abcdef`, high half first.
#[verifier::external_body]
fn hex_encode(bytes: &[u8]) -> (s: String)
    ensures
        s@ == hex_string(bytes@),
{
    hex::encode(bytes)
}

/// Calls `rand::thread_rng` and `Rng::fill` on sixteen bytes. Nothing is
/// claimed of the bytes that come back. The generator is seeded from the
/// operating system on its first use in a thread, and that can fail.
#[verifier::external_body]
fn random_bytes() -> (bytes: [u8; KEY_SIZE]) {
    let mut bytes: [u8; KEY_SIZE] = [0; KEY_SIZE];
    rand::Rng::fill(&mut rand::thread_rng(), &mut bytes);
    bytes
}

impl Key {
    /// The position of the key in the order of all keys: its bytes read as
    /// one big-endian number.
    pub open spec fn spec_rank(self) -> u128 {
        be_value(self@) as u128
    }

    /// A fresh key drawn from the thread's random generator.
    pub fn new() -> (k: Key)
        ensures
            k@.len() == KEY_SIZE,
    {
        Key::Key(random_bytes())
    }

    /// The bytes of the key.
    pub fn bytes(&self) -> (b: &[u8; KEY_SIZE])
        ensures
            b@ == self@,
    {
        match self {
            Key::Key(b) => b,
        }
    }

    /// The key as 32 lower-case hexadecimal digits.
    pub fn hex(&self) -> (s: String)
        ensures
            s@ == hex_string(self@),
            s@.len() == 2 * KEY_SIZE,
            is_key_hex(s@),
    {
        proof {
            lemma_hex_string_len(self@);
            assert(self@.len() == KEY_SIZE);
        }
        hex_encode(self.bytes().as_slice())
    }

    /// The key that 32 hexadecimal digits stand for, or `None` for any other
    /// string.
    pub fn from_hex(s: &str) -> (r: Option<Key>)
        ensures
            match r {
                Some(k) => s@.len() == 2 * KEY_SIZE && parse_hex(s@) == Some(k@),
                None => s@.len() != 2 * KEY_SIZE || parse_hex(s@) is None,
            },
    {
        match hex_decode(s) {
            Ok(bytes) => Some(Key::Key(bytes)),
            Err(_) => None,
        }
    }

    /// The key's position in the order of keys.
    pub fn rank(&self) -> (r: u128)
        ensures
            r == self.spec_rank(),
    {
        proof {
            lemma_be_value_bound(self@);
            lemma_radix_16();
        }
        read_be(self.bytes().as_slice())
    }

    /// The key at the given position in the order of keys.
    pub fn from_rank(rank: u128) -> (k: Key)
        ensures
            k.spec_rank() == rank,
    {
        let mut bytes: Vec<u8> = Vec::new();
        write_be(&mut bytes, rank, KEY_SIZE);
        proof {
            lemma_be_digits_len(rank as nat, KEY_SIZE as nat);
            lemma_radix_16();
            lemma_be_value_of_digits(rank as nat, KEY_SIZE as nat);
        }
        Key::from_slice(bytes.as_slice())
    }

    /// The key made of the sixteen bytes of `s`.
    pub fn from_slice(s: &[u8]) -> (k: Key)
        requires
            s@.len() == KEY_SIZE,
        ensures
            k@ == s@,
    {
        let mut b: [u8; KEY_SIZE] = [0; KEY_SIZE];
        let mut i: usize = 0;
        while i < KEY_SIZE
            invariant
                i <= KEY_SIZE,
                s@.len() == KEY_SIZE,
                forall|j: int| 0 <= j < i ==> b@[j] == s@[j],
            decreases KEY_SIZE - i,
        {
            b[i] = s[i];
            i += 1;
        }
        assert(b@ =~= s@);
        Key::Key(b)
    }
}

/// A key is read back from its hexadecimal form.
pub proof fn lemma_key_hex_round_trip(k: Key)
    ensures
        hex_string(k@).len() == 2 * KEY_SIZE,
        parse_hex(hex_string(k@)) == Some(k@),
{
    lemma_hex_string_len(k@);
    lemma_parse_hex_of_hex_string(k@);
}

/// Keys are ordered as their ranks are, and two keys of one rank are one key.
pub proof fn lemma_rank_order(a: Key, b: Key)
    ensures
        lex_lt(a@, b@) <==> a.spec_rank() < b.spec_rank(),
        a@ == b@ <==> a.spec_rank() == b.spec_rank(),
{
    lemma_be_value_bound(a@);
    lemma_be_value_bound(b@);
    lemma_radix_16();
    lemma_lex_lt_is_numeric(a@, b@);
    if a.spec_rank() == b.spec_rank() {
        lemma_be_value_injective(a@, b@);
    }
}

} // verus!
