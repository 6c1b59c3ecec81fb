//! Unsigned integers as fixed-width byte strings, least significant byte first
//! in the files and most significant byte first on the wire.

use vstd::arithmetic::div_mod::*;
use vstd::arithmetic::power::*;
use vstd::prelude::*;

verus! {

/// How many values `n` bytes can hold: 256 to the power of `n`.
pub open spec fn span(n: nat) -> nat
    decreases n,
{
    if n == 0 {
        1
    } else {
        256 * span((n - 1) as nat)
    }
}

/// The low `n` bytes of `v`, least significant first.
pub open spec fn le_bytes(v: nat, n: nat) -> Seq<u8>
    decreases n,
{
    if n == 0 {
        Seq::empty()
    } else {
        seq![(v % 256) as u8] + le_bytes(v / 256, (n - 1) as nat)
    }
}

/// The number that a byte string spells, least significant byte first.
pub open spec fn le_value(s: Seq<u8>) -> nat
    decreases s.len(),
{
    if s.len() == 0 {
        0
    } else {
        s[0] as nat + 256 * le_value(s.drop_first())
    }
}

/// The low `n` bytes of `v`, most significant first.
pub open spec fn be_bytes(v: nat, n: nat) -> Seq<u8>
    decreases n,
{
    if n == 0 {
        Seq::empty()
    } else {
        be_bytes(v / 256, (n - 1) as nat).push((v % 256) as u8)
    }
}

/// The number that a byte string spells, most significant byte first.
pub open spec fn be_value(s: Seq<u8>) -> nat
    decreases s.len(),
{
    if s.len() == 0 {
        0
    } else {
        256 * be_value(s.drop_last()) + s.last() as nat
    }
}

/// The spans of the widths in use.
pub proof fn lemma_spans()
    ensures
        span(2) == 0x1_0000,
        span(4) == 0x1_0000_0000,
        span(8) == 0x1_0000_0000_0000_0000,
{
    reveal_with_fuel(span, 9);
    assert(span(8) == 0x1_0000_0000_0000_0000);
}

pub proof fn lemma_le_bytes_len(v: nat, n: nat)
    ensures
        le_bytes(v, n).len() == n,
    decreases n,
{
    if n > 0 {
        lemma_le_bytes_len(v / 256, (n - 1) as nat);
    }
}

pub proof fn lemma_be_bytes_len(v: nat, n: nat)
    ensures
        be_bytes(v, n).len() == n,
    decreases n,
{
    if n > 0 {
        lemma_be_bytes_len(v / 256, (n - 1) as nat);
    }
}

pub proof fn lemma_le_value_bound(s: Seq<u8>)
    ensures
        le_value(s) < span(s.len()),
    decreases s.len(),
{
    if s.len() > 0 {
        lemma_le_value_bound(s.drop_first());
    }
}

pub proof fn lemma_be_value_bound(s: Seq<u8>)
    ensures
        be_value(s) < span(s.len()),
    decreases s.len(),
{
    if s.len() > 0 {
        lemma_be_value_bound(s.drop_last());
    }
}

/// Reading back a number that fits its width, least significant byte first,
/// gives that number.
pub proof fn le_value_of_le_bytes(v: nat, n: nat)
    requires
        v < span(n),
    ensures
        le_bytes(v, n).len() == n,
        le_value(le_bytes(v, n)) == v,
    decreases n,
{
    if n > 0 {
        le_value_of_le_bytes(v / 256, (n - 1) as nat);
        assert(le_bytes(v, n).drop_first() =~= le_bytes(v / 256, (n - 1) as nat));
    }
}

/// Writing the number that a byte string spells, least significant byte first,
/// gives the byte string back.
pub proof fn le_bytes_of_le_value(s: Seq<u8>)
    ensures
        le_bytes(le_value(s), s.len()) == s,
    decreases s.len(),
{
    if s.len() > 0 {
        let rest = s.drop_first();
        le_bytes_of_le_value(rest);
        let v = le_value(s);
        assert(v % 256 == s[0] as nat);
        assert(v / 256 == le_value(rest));
        assert(s =~= seq![s[0]] + rest);
    }
}

/// Reading back a number that fits its width, most significant byte first,
/// gives that number.
pub proof fn be_value_of_be_bytes(v: nat, n: nat)
    requires
        v < span(n),
    ensures
        be_bytes(v, n).len() == n,
        be_value(be_bytes(v, n)) == v,
    decreases n,
{
    if n > 0 {
        be_value_of_be_bytes(v / 256, (n - 1) as nat);
        assert(be_bytes(v, n).drop_last() =~= be_bytes(v / 256, (n - 1) as nat));
    }
}

/// Writing the number that a byte string spells, most significant byte first,
/// gives the byte string back.
pub proof fn be_bytes_of_be_value(s: Seq<u8>)
    ensures
        be_bytes(be_value(s), s.len()) == s,
    decreases s.len(),
{
    if s.len() > 0 {
        be_bytes_of_be_value(s.drop_last());
        let v = be_value(s);
        assert(v % 256 == s.last() as nat);
        assert(v / 256 == be_value(s.drop_last()));
        assert(s =~= s.drop_last().push(s.last()));
    }
}

proof fn lemma_span_grows(n: nat, m: nat)
    requires
        n <= m,
    ensures
        span(n) <= span(m),
    decreases m,
{
    if n < m {
        lemma_span_grows(n, (m - 1) as nat);
    }
}

/// Appends the low `n` bytes of `v`, least significant first.
pub fn push_le(out: &mut Vec<u8>, v: u64, n: usize)
    ensures
        final(out)@ == old(out)@ + le_bytes(v as nat, n as nat),
    decreases n,
{
    if n == 0 {
        assert(out@ =~= out@ + le_bytes(v as nat, 0));
    } else {
        out.push((v % 256) as u8);
        push_le(out, v / 256, n - 1);
        assert(out@ =~= old(out)@ + le_bytes(v as nat, n as nat));
    }
}

/// Appends the low `n` bytes of `v`, most significant first.
pub fn push_be(out: &mut Vec<u8>, v: u64, n: usize)
    ensures
        final(out)@ == old(out)@ + be_bytes(v as nat, n as nat),
    decreases n,
{
    if n == 0 {
        assert(out@ =~= out@ + be_bytes(v as nat, 0));
    } else {
        push_be(out, v / 256, n - 1);
        out.push((v % 256) as u8);
        assert(out@ =~= old(out)@ + be_bytes(v as nat, n as nat));
    }
}

/// The number that the `n` bytes from `at` on spell, least significant first.
pub fn read_le(bytes: &[u8], at: usize, n: usize) -> (v: u64)
    requires
        at + n <= bytes@.len(),
        n <= 8,
    ensures
        v == le_value(bytes@.subrange(at as int, at + n)),
    decreases n,
{
    let ghost field = bytes@.subrange(at as int, at + n);
    if n == 0 {
        0
    } else {
        proof {
            lemma_le_value_bound(field);
            lemma_span_grows(n as nat, 8);
            lemma_spans();
            assert(field.drop_first() =~= bytes@.subrange(at + 1, at + n));
        }
        bytes[at] as u64 + 256 * read_le(bytes, at + 1, n - 1)
    }
}

/// The number that the `n` bytes from `at` on spell, most significant first.
pub fn read_be(bytes: &[u8], at: usize, n: usize) -> (v: u64)
    requires
        at + n <= bytes@.len(),
        n <= 8,
    ensures
        v == be_value(bytes@.subrange(at as int, at + n)),
    decreases n,
{
    let ghost field = bytes@.subrange(at as int, at + n);
    if n == 0 {
        0
    } else {
        proof {
            lemma_be_value_bound(field);
            lemma_span_grows(n as nat, 8);
            lemma_spans();
            assert(field.drop_last() =~= bytes@.subrange(at as int, at + n - 1));
            assert(at + n <= bytes.len());
        }
        256 * read_be(bytes, at, n - 1) + bytes[at + n - 1] as u64
    }
}

/// Whether two byte slices hold the same bytes.
pub fn same_bytes(a: &[u8], b: &[u8]) -> (same: bool)
    ensures
        same == (a@ == b@),
{
    if a.len() != b.len() {
        return false;
    }
    let mut i: usize = 0;
    while i < a.len()
        invariant
            i <= a@.len(),
            a@.len() == b@.len(),
            forall|k: int| 0 <= k < i ==> a@[k] == b@[k],
        decreases a@.len() - i,
    {
        if a[i] != b[i] {
            return false;
        }
        i += 1;
    }
    assert(a@ =~= b@);
    true
}

/// Appends a byte slice.
pub fn push_all(out: &mut Vec<u8>, more: &[u8])
    ensures
        final(out)@ == old(out)@ + more@,
{
    out.extend_from_slice(more);
    assert(out@ =~= old(out)@ + more@);
}

/// A copy of the bytes from `from` up to `to`.
pub fn copy_range(bytes: &[u8], from: usize, to: usize) -> (copy: Vec<u8>)
    requires
        from <= to <= bytes@.len(),
    ensures
        copy@ == bytes@.subrange(from as int, to as int),
{
    let mut copy: Vec<u8> = Vec::with_capacity(to - from);
    copy.extend_from_slice(vstd::slice::slice_subrange(bytes, from, to));
    assert(copy@ =~= bytes@.subrange(from as int, to as int));
    copy
}

/// Dividing by a power is dividing by the base and then by the power before.
pub proof fn lemma_next_power(v: nat, b: nat, i: nat)
    requires
        b > 0,
        i > 0,
    ensures
        pow(b as int, i) > 0,
        pow(b as int, (i - 1) as nat) > 0,
        v as int / pow(b as int, i) == (v / b) as int / pow(b as int, (i - 1) as nat),
{
    let p = pow(b as int, (i - 1) as nat);
    lemma_pow_positive(b as int, (i - 1) as nat);
    lemma_pow_positive(b as int, i);
    reveal(pow);
    lemma_div_denominator(v as int, b as int, p);
}

/// A span is a power of 256.
pub proof fn span_is_a_power(n: nat)
    ensures
        span(n) == pow(256, n),
    decreases n,
{
    reveal(pow);
    if n > 0 {
        span_is_a_power((n - 1) as nat);
    }
}

/// Byte number `i` of a number written least significant byte first is the digit
/// number `i` of the number to the base 256.
pub proof fn le_bytes_are_digits(v: nat, n: nat, i: int)
    requires
        0 <= i < n,
    ensures
        le_bytes(v, n).len() == n,
        le_bytes(v, n)[i] as int == v as int / pow(256, i as nat) % 256,
    decreases n,
{
    lemma_le_bytes_len(v, n);
    lemma_le_bytes_len(v / 256, (n - 1) as nat);
    if i == 0 {
        lemma_pow0(256);
    } else {
        le_bytes_are_digits(v / 256, (n - 1) as nat, i - 1);
        lemma_next_power(v, 256, i as nat);
        assert(le_bytes(v, n)[i] == le_bytes(v / 256, (n - 1) as nat)[i - 1]);
    }
}

/// A number written most significant byte first is the number written least
/// significant byte first, backwards.
pub proof fn be_bytes_are_le_bytes_backwards(v: nat, n: nat, i: int)
    requires
        0 <= i < n,
    ensures
        be_bytes(v, n).len() == n,
        be_bytes(v, n)[n - 1 - i] == le_bytes(v, n)[i],
        be_bytes(v, n)[n - 1 - i] as int == v as int / pow(256, i as nat) % 256,
    decreases n,
{
    lemma_be_bytes_len(v, n);
    lemma_be_bytes_len(v / 256, (n - 1) as nat);
    lemma_le_bytes_len(v / 256, (n - 1) as nat);
    le_bytes_are_digits(v, n, i);
    if i > 0 {
        be_bytes_are_le_bytes_backwards(v / 256, (n - 1) as nat, i - 1);
        assert(le_bytes(v, n)[i] == le_bytes(v / 256, (n - 1) as nat)[i - 1]);
    }
}

/// The number that bytes spell, least significant first, is below the power of
/// 256 that their number says, and its digits to the base 256 are the bytes.
pub proof fn le_value_has_digits(s: Seq<u8>, i: int)
    requires
        0 <= i < s.len(),
    ensures
        le_value(s) < pow(256, s.len()),
        le_value(s) as int / pow(256, i as nat) % 256 == s[i] as int,
{
    lemma_le_value_bound(s);
    span_is_a_power(s.len());
    le_bytes_of_le_value(s);
    le_bytes_are_digits(le_value(s), s.len(), i);
}

/// The number that bytes spell, most significant first, is below the power of
/// 256 that their number says, and its digits to the base 256 are the bytes.
pub proof fn be_value_has_digits(s: Seq<u8>, i: int)
    requires
        0 <= i < s.len(),
    ensures
        be_value(s) < pow(256, s.len()),
        be_value(s) as int / pow(256, i as nat) % 256 == s[s.len() - 1 - i] as int,
{
    lemma_be_value_bound(s);
    span_is_a_power(s.len());
    be_bytes_of_be_value(s);
    be_bytes_are_le_bytes_backwards(be_value(s), s.len(), i);
}

} // verus!
