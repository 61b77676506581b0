//! Big-endian integers and the lexicographic order of byte strings.

use vstd::prelude::*;

verus! {

/// The number that a byte string denotes when read most significant byte first.
pub open spec fn be_value(s: Seq<u8>) -> nat
    decreases s.len(),
{
    if s.len() == 0 {
        0
    } else {
        be_value(s.drop_last()) * 256 + s.last() as nat
    }
}

/// The `n` low-order base-256 digits of `x`, most significant first.
pub open spec fn be_digits(x: nat, n: nat) -> Seq<u8>
    decreases n,
{
    if n == 0 {
        Seq::empty()
    } else {
        be_digits(x / 256, (n - 1) as nat).push((x % 256) as u8)
    }
}

/// 256 to the power `n`.
pub open spec fn radix(n: nat) -> nat
    decreases n,
{
    if n == 0 {
        1
    } else {
        256 * radix((n - 1) as nat)
    }
}

/// Strict lexicographic order on byte strings of one length: at the first
/// position where they differ, `a` holds the smaller byte.
pub open spec fn lex_lt(a: Seq<u8>, b: Seq<u8>) -> bool {
    exists|i: int|
        0 <= i < a.len() && i < b.len() && a[i] < b[i] && forall|j: int|
            0 <= j < i ==> a[j] == b[j]
}

pub proof fn lemma_radix_8()
    ensures
        radix(8) == 0x1_0000_0000_0000_0000,
{
    reveal_with_fuel(radix, 9);
}

pub proof fn lemma_radix_16()
    ensures
        radix(16) == 0x1_0000_0000_0000_0000_0000_0000_0000_0000,
{
    reveal_with_fuel(radix, 9);
    assert(radix(8) == 0x1_0000_0000_0000_0000);
    assert(radix(16) == 0x1_0000_0000_0000_0000 * radix(8));
}

pub proof fn lemma_radix_monotone(m: nat, n: nat)
    requires
        m <= n,
    ensures
        0 < radix(m) <= radix(n),
    decreases n,
{
    if n == 0 {
    } else if m == n {
        lemma_radix_monotone((m - 1) as nat, (n - 1) as nat);
    } else {
        lemma_radix_monotone(m, (n - 1) as nat);
    }
}

/// A string of `n` bytes denotes a number below 256 to the `n`.
pub proof fn lemma_be_value_bound(s: Seq<u8>)
    ensures
        be_value(s) < radix(s.len()),
    decreases s.len(),
{
    if s.len() > 0 {
        lemma_be_value_bound(s.drop_last());
    }
}

pub proof fn lemma_be_digits_len(x: nat, n: nat)
    ensures
        be_digits(x, n).len() == n,
    decreases n,
{
    if n > 0 {
        lemma_be_digits_len(x / 256, (n - 1) as nat);
    }
}

/// Reading back the `n` digits of a number below 256 to the `n` gives the number.
pub proof fn lemma_be_value_of_digits(x: nat, n: nat)
    requires
        x < radix(n),
    ensures
        be_value(be_digits(x, n)) == x,
    decreases n,
{
    if n > 0 {
        let d = be_digits(x / 256, (n - 1) as nat);
        lemma_be_digits_len(x / 256, (n - 1) as nat);
        lemma_be_value_of_digits(x / 256, (n - 1) as nat);
        assert(d.push((x % 256) as u8).drop_last() =~= d);
    }
}

/// Writing the digits of the number that a string denotes gives the string.
pub proof fn lemma_be_digits_of_value(s: Seq<u8>)
    ensures
        be_digits(be_value(s), s.len()) == s,
    decreases s.len(),
{
    if s.len() > 0 {
        let v = be_value(s);
        lemma_be_digits_of_value(s.drop_last());
        assert(v / 256 == be_value(s.drop_last()));
        assert(v % 256 == s.last() as nat);
        assert(be_digits(v, s.len()) =~= s);
    } else {
        assert(be_digits(be_value(s), s.len()) =~= s);
    }
}

/// Two strings of one length that denote the same number are the same string.
pub proof fn lemma_be_value_injective(a: Seq<u8>, b: Seq<u8>)
    requires
        a.len() == b.len(),
        be_value(a) == be_value(b),
    ensures
        a == b,
{
    lemma_be_digits_of_value(a);
    lemma_be_digits_of_value(b);
}

/// On strings of one length the lexicographic order is the order of the
/// numbers they denote.
pub proof fn lemma_lex_lt_is_numeric(a: Seq<u8>, b: Seq<u8>)
    requires
        a.len() == b.len(),
    ensures
        lex_lt(a, b) <==> be_value(a) < be_value(b),
    decreases a.len(),
{
    if a.len() == 0 {
    } else {
        let n = a.len() as int;
        let a0 = a.drop_last();
        let b0 = b.drop_last();
        lemma_lex_lt_is_numeric(a0, b0);
        if lex_lt(a, b) {
            let i = choose|i: int|
                0 <= i < a.len() && i < b.len() && a[i] < b[i] && forall|j: int|
                    0 <= j < i ==> a[j] == b[j];
            if i < n - 1 {
                assert(a0[i] < b0[i]);
                assert(forall|j: int| 0 <= j < i ==> a0[j] == b0[j]);
                assert(lex_lt(a0, b0));
            } else {
                assert(a0 =~= b0);
            }
        }
        if be_value(a) < be_value(b) {
            if be_value(a0) < be_value(b0) {
                let i = choose|i: int|
                    0 <= i < a0.len() && i < b0.len() && a0[i] < b0[i] && forall|j: int|
                        0 <= j < i ==> a0[j] == b0[j];
                assert(a[i] < b[i]);
                assert(forall|j: int| 0 <= j < i ==> a[j] == b[j]) by {
                    assert(forall|j: int| 0 <= j < i ==> a0[j] == a[j] && b0[j] == b[j]);
                }
                assert(lex_lt(a, b));
            } else {
                assert(be_value(a0) == be_value(b0));
                lemma_be_value_injective(a0, b0);
                assert(a[n - 1] < b[n - 1]);
                assert(forall|j: int| 0 <= j < n - 1 ==> a[j] == b[j]) by {
                    assert(forall|j: int| 0 <= j < n - 1 ==> a0[j] == a[j] && b0[j] == b[j]);
                }
                assert(lex_lt(a, b));
            }
        }
    }
}

/// Reads `s`, of at most 16 bytes, as a big-endian number.
pub fn read_be(s: &[u8]) -> (x: u128)
    requires
        s@.len() <= 16,
    ensures
        x == be_value(s@),
{
    let mut x: u128 = 0;
    let mut i: usize = 0;
    while i < s.len()
        invariant
            i <= s@.len() <= 16,
            x == be_value(s@.take(i as int)),
        decreases s@.len() - i,
    {
        proof {
            let p = s@.take(i as int);
            let q = s@.take(i + 1);
            assert(q.drop_last() =~= p);
            assert(q.last() == s@[i as int]);
            lemma_be_value_bound(q);
            lemma_radix_monotone(q.len(), 16);
            lemma_radix_16();
        }
        x = x * 256 + s[i] as u128;
        i += 1;
    }
    proof {
        assert(s@.take(i as int) =~= s@);
    }
    x
}

/// Reads the eight bytes of `s` as a big-endian number.
pub fn read_be_u64(s: &[u8]) -> (x: u64)
    requires
        s@.len() == 8,
    ensures
        x == be_value(s@),
{
    let wide = read_be(s);
    proof {
        lemma_be_value_bound(s@);
        lemma_radix_8();
    }
    wide as u64
}

/// Appends to `out` the `n` low-order bytes of `x`, most significant first.
pub fn write_be(out: &mut Vec<u8>, x: u128, n: usize)
    ensures
        final(out)@ == old(out)@ + be_digits(x as nat, n as nat),
    decreases n,
{
    if n > 0 {
        write_be(out, x / 256, n - 1);
        out.push((x % 256) as u8);
        proof {
            let d = be_digits((x as nat) / 256, (n - 1) as nat);
            assert(out@ =~= old(out)@ + d.push(((x as nat) % 256) as u8));
        }
    } else {
        assert(out@ =~= old(out)@ + be_digits(x as nat, 0));
    }
}

} // verus!
