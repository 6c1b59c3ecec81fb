//! Decimal numbers in text, and the few text searches that the log needs.

use crate::bytes;
use vstd::arithmetic::power::*;
use vstd::prelude::*;
use vstd::string::*;
use vstd::utf8::*;

verus! {

/// The character of a decimal digit.
pub open spec fn digit(d: nat) -> char {
    (48 + d) as char
}

/// Whether a character is one of `0` to `9`.
pub open spec fn is_digit(c: char) -> bool {
    '0' <= c <= '9'
}

/// Whether every character is one of `0` to `9`.
pub open spec fn all_digits(s: Seq<char>) -> bool {
    forall|i: int| 0 <= i < s.len() ==> is_digit(#[trigger] s[i])
}

/// `v` in decimal, without leading zeros.
pub open spec fn decimal(v: nat) -> Seq<char>
    decreases v,
{
    if v < 10 {
        seq![digit(v)]
    } else {
        decimal(v / 10).push(digit(v % 10))
    }
}

/// The last `n` decimal digits of `v`, with leading zeros.
pub open spec fn padded(v: nat, n: nat) -> Seq<char>
    decreases n,
{
    if n == 0 {
        Seq::empty()
    } else {
        padded(v / 10, (n - 1) as nat).push(digit(v % 10))
    }
}

/// The number that decimal digits spell.
pub open spec fn decimal_value(s: Seq<char>) -> nat
    decreases s.len(),
{
    if s.len() == 0 {
        0
    } else {
        10 * decimal_value(s.drop_last()) + (s.last() as nat - 48) as nat
    }
}

/// 10 to the power of `n`.
pub open spec fn ten_to(n: nat) -> nat
    decreases n,
{
    if n == 0 {
        1
    } else {
        10 * ten_to((n - 1) as nat)
    }
}

/// The unsigned number below `limit` that a text spells: digits, which one
/// plus sign may precede.
pub open spec fn parsed(s: Seq<char>, limit: nat) -> Option<nat> {
    let digits = if s.len() > 0 && s[0] == '+' {
        s.drop_first()
    } else {
        s
    };
    if digits.len() > 0 && all_digits(digits) && decimal_value(digits) < limit {
        Some(decimal_value(digits))
    } else {
        None
    }
}

/// Whether `needle` stands in `hay` from character `at` on.
pub open spec fn stands_at(hay: Seq<char>, needle: Seq<char>, at: int) -> bool {
    0 <= at && at + needle.len() <= hay.len() && hay.subrange(at, at + needle.len()) == needle
}

/// Whether `needle` stands somewhere in `hay`.
pub open spec fn contains_text(hay: Seq<char>, needle: Seq<char>) -> bool {
    exists|at: int| stands_at(hay, needle, at)
}

/// Whether `s` begins with `prefix`.
pub open spec fn begins_with(s: Seq<char>, prefix: Seq<char>) -> bool {
    stands_at(s, prefix, 0)
}

/// Whether `s` ends with `suffix`.
pub open spec fn ends_with_text(s: Seq<char>, suffix: Seq<char>) -> bool {
    stands_at(s, suffix, s.len() - suffix.len())
}

/// A number in decimal consists of digits that spell the number.
pub proof fn decimal_spells(v: nat)
    ensures
        decimal(v).len() > 0,
        all_digits(decimal(v)),
        decimal_value(decimal(v)) == v,
    decreases v,
{
    if v < 10 {
        assert(decimal(v).drop_last() =~= Seq::<char>::empty());
        assert(decimal_value(decimal(v).drop_last()) == 0);
    } else {
        decimal_spells(v / 10);
        assert(decimal(v).drop_last() =~= decimal(v / 10));
    }
}

/// The last digits of a number that needs no more of them spell the number.
pub proof fn padded_spells(v: nat, n: nat)
    requires
        v < ten_to(n),
    ensures
        padded(v, n).len() == n,
        all_digits(padded(v, n)),
        decimal_value(padded(v, n)) == v,
    decreases n,
{
    if n > 0 {
        padded_spells(v / 10, (n - 1) as nat);
        assert(padded(v, n).drop_last() =~= padded(v / 10, (n - 1) as nat));
    }
}

pub proof fn lemma_padded_len(v: nat, n: nat)
    ensures
        padded(v, n).len() == n,
    decreases n,
{
    if n > 0 {
        lemma_padded_len(v / 10, (n - 1) as nat);
    }
}

/// Padding the number that digits spell to their count gives the digits back.
pub proof fn padded_of_value(s: Seq<char>)
    requires
        all_digits(s),
    ensures
        padded(decimal_value(s), s.len()) == s,
    decreases s.len(),
{
    if s.len() > 0 {
        padded_of_value(s.drop_last());
        let v = decimal_value(s);
        let d = (s.last() as nat - 48) as nat;
        assert(is_digit(s.last()));
        assert(v % 10 == d);
        assert(v / 10 == decimal_value(s.drop_last()));
        assert(s =~= s.drop_last().push(s.last()));
    }
}

/// 20 decimal digits are enough for any `u64`.
pub proof fn lemma_twenty_digits()
    ensures
        u64::MAX < ten_to(20),
{
    reveal_with_fuel(ten_to, 21);
}

/// A number in decimal is parsed to that number, where it is below the limit.
pub proof fn parsed_decimal(v: nat, limit: nat)
    requires
        v < limit,
    ensures
        parsed(decimal(v), limit) == Some(v),
{
    decimal_spells(v);
    assert(is_digit(decimal(v)[0]));
}

/// Appends the character of a decimal digit.
pub fn push_digit(s: &mut String, d: u64)
    requires
        d < 10,
    ensures
        final(s)@ == old(s)@.push(digit(d as nat)),
{
    proof {
        reveal_strlit("0");
        reveal_strlit("1");
        reveal_strlit("2");
        reveal_strlit("3");
        reveal_strlit("4");
        reveal_strlit("5");
        reveal_strlit("6");
        reveal_strlit("7");
        reveal_strlit("8");
        reveal_strlit("9");
    }
    let text = match d {
        0 => "0",
        1 => "1",
        2 => "2",
        3 => "3",
        4 => "4",
        5 => "5",
        6 => "6",
        7 => "7",
        8 => "8",
        _ => "9",
    };
    s.append(text);
    assert(s@ =~= old(s)@.push(digit(d as nat)));
}

/// Appends `v` in decimal, without leading zeros.
pub fn push_decimal(s: &mut String, v: u64)
    ensures
        final(s)@ == old(s)@ + decimal(v as nat),
    decreases v,
{
    if v >= 10 {
        push_decimal(s, v / 10);
    }
    push_digit(s, v % 10);
    assert(s@ =~= old(s)@ + decimal(v as nat));
}

/// Appends the last `n` decimal digits of `v`, with leading zeros.
pub fn push_padded(s: &mut String, v: u64, n: usize)
    ensures
        final(s)@ == old(s)@ + padded(v as nat, n as nat),
    decreases n,
{
    if n > 0 {
        push_padded(s, v / 10, n - 1);
        push_digit(s, v % 10);
    }
    assert(s@ =~= old(s)@ + padded(v as nat, n as nat));
}

/// The text of `before`, then `v` in decimal, then the text of `after`.
pub fn with_number(before: &str, v: u64, after: &str) -> (s: String)
    ensures
        s@ == before@ + decimal(v as nat) + after@,
{
    let mut s: String = before.to_owned();
    push_decimal(&mut s, v);
    s.append(after);
    s
}

/// The characters of a text.
pub fn chars_of(s: &str) -> (chars: Vec<char>)
    ensures
        chars@ == s@,
{
    let mut chars: Vec<char> = Vec::new();
    for c in it: s.chars()
        invariant
            it.seq() == s@,
            chars@ == s@.take(it.index() as int),
    {
        chars.push(c);
        assert(s@.take(it.index() + 1) =~= s@.take(it.index() as int).push(c));
    }
    assert(s@.take(s@.len() as int) =~= s@);
    chars
}

/// Whether two texts are the same.
pub fn same_text(a: &str, b: &str) -> (same: bool)
    ensures
        same == (a@ == b@),
{
    proof {
        encode_utf8_decode_utf8(a@);
        encode_utf8_decode_utf8(b@);
    }
    crate::bytes::same_bytes(a.as_bytes(), b.as_bytes())
}

/// Whether `needle` stands in `hay` from character `at` on.
pub fn matches_at(hay: &Vec<char>, needle: &Vec<char>, at: usize) -> (found: bool)
    ensures
        found == stands_at(hay@, needle@, at as int),
{
    if needle.len() > hay.len() || at > hay.len() - needle.len() {
        return false;
    }
    let mut i: usize = 0;
    while i < needle.len()
        invariant
            i <= needle.len(),
            at + needle.len() <= hay.len(),
            forall|k: int| 0 <= k < i ==> hay@[at + k] == needle@[k],
        decreases needle.len() - i,
    {
        if hay[at + i] != needle[i] {
            assert(hay@.subrange(at as int, at + needle@.len())[i as int] == hay@[at + i]);
            return false;
        }
        i += 1;
    }
    assert(hay@.subrange(at as int, at + needle@.len()) =~= needle@);
    true
}

/// Whether `needle` stands somewhere in `hay`.
pub fn contains(hay: &str, needle: &str) -> (found: bool)
    ensures
        found == contains_text(hay@, needle@),
{
    let text = chars_of(hay);
    let sought = chars_of(needle);
    let mut at: usize = 0;
    while at < text.len()
        invariant
            at <= text.len(),
            text@ == hay@,
            sought@ == needle@,
            forall|k: int| 0 <= k < at ==> !stands_at(hay@, needle@, k),
        decreases text.len() - at,
    {
        if matches_at(&text, &sought, at) {
            return true;
        }
        at += 1;
    }
    matches_at(&text, &sought, at)
}

/// Whether `s` begins with `prefix`.
pub fn starts_with(s: &str, prefix: &str) -> (found: bool)
    ensures
        found == begins_with(s@, prefix@),
{
    matches_at(&chars_of(s), &chars_of(prefix), 0)
}

proof fn lemma_more_digits(s: Seq<char>, n: int)
    requires
        0 <= n <= s.len(),
    ensures
        decimal_value(s.take(n)) <= decimal_value(s),
    decreases s.len(),
{
    if n < s.len() {
        lemma_more_digits(s.drop_last(), n);
        assert(s.drop_last().take(n) =~= s.take(n));
    } else {
        assert(s.take(n) =~= s);
    }
}

/// The number that the characters from `from` up to `to` spell, where they are
/// digits, at least one, and spell no more than `max`.
pub fn digits_value(chars: &Vec<char>, from: usize, to: usize, max: u64) -> (v: Option<u64>)
    requires
        from <= to <= chars@.len(),
    ensures
        ({
            let s = chars@.subrange(from as int, to as int);
            v == if s.len() > 0 && all_digits(s) && decimal_value(s) <= max {
                Some(decimal_value(s) as u64)
            } else {
                None
            }
        }),
{
    if from == to {
        return None;
    }
    let ghost s = chars@.subrange(from as int, to as int);
    let mut acc: u64 = 0;
    let mut i: usize = from;
    while i < to
        invariant
            from <= i <= to <= chars@.len(),
            s == chars@.subrange(from as int, to as int),
            all_digits(s.take(i - from)),
            acc == decimal_value(s.take(i - from)),
            acc <= max,
        decreases to - i,
    {
        let c: char = chars[i];
        assert(c == s[i - from]);
        if c < '0' || '9' < c {
            assert(!is_digit(s[i - from]));
            return None;
        }
        let d: u32 = c as u32 - 48;
        let next: u128 = acc as u128 * 10 + d as u128;
        proof {
            assert(s.take(i + 1 - from).drop_last() =~= s.take(i - from));
            assert(s.take(i + 1 - from).last() == c);
            assert(next == decimal_value(s.take(i + 1 - from)));
            lemma_more_digits(s, i + 1 - from);
        }
        if next > max as u128 {
            return None;
        }
        acc = next as u64;
        i += 1;
    }
    assert(s.take(to - from) =~= s);
    Some(acc)
}

/// The number that the characters from `from` up to `to` spell, read as an
/// unsigned number of at most `max`: digits, which one plus sign may precede.
pub fn parse_number(chars: &Vec<char>, from: usize, to: usize, max: u64) -> (v: Option<u64>)
    requires
        from <= to <= chars@.len(),
    ensures
        match parsed(chars@.subrange(from as int, to as int), max as nat + 1) {
            Some(n) => v == Some(n as u64) && n <= max,
            None => v is None,
        },
{
    let ghost s = chars@.subrange(from as int, to as int);
    if from < to && chars[from] == '+' {
        assert(s[0] == '+');
        assert(s.drop_first() =~= chars@.subrange(from + 1, to as int));
        digits_value(chars, from + 1, to, max)
    } else {
        assert(s.len() > 0 ==> s[0] != '+');
        digits_value(chars, from, to, max)
    }
}

/// The digits of a number in decimal are its digits to the base 10, and the first
/// of several is not a zero.
pub proof fn decimal_has_digits(v: nat, i: int)
    requires
        0 <= i < decimal(v).len(),
    ensures
        v < pow(10, decimal(v).len()),
        decimal(v).len() > 1 ==> pow(10, (decimal(v).len() - 1) as nat) <= v,
        decimal(v)[decimal(v).len() - 1 - i] as int == 48 + v as int / pow(10, i as nat) % 10,
    decreases v,
{
    let n = decimal(v).len();
    reveal(pow);
    if v < 10 {
        assert(pow(10, 0) == 1);
        assert(pow(10, 1) == 10);
    } else {
        decimal_spells(v / 10);
        if i == 0 {
            decimal_has_digits(v / 10, 0);
        } else {
            decimal_has_digits(v / 10, i - 1);
            bytes::lemma_next_power(v, 10, i as nat);
            assert(decimal(v)[n - 1 - i] == decimal(v / 10)[n - 2 - (i - 1)]);
        }
        assert(pow(10, n) == 10 * pow(10, (n - 1) as nat));
        assert(pow(10, (n - 1) as nat) == 10 * pow(10, (n - 2) as nat));
        assert(n == 2 ==> pow(10, 0) == 1);
    }
}

/// The digits of a padded number are its last digits to the base 10.
pub proof fn padded_has_digits(v: nat, n: nat, i: int)
    requires
        0 <= i < n,
    ensures
        padded(v, n).len() == n,
        padded(v, n)[n - 1 - i] as int == 48 + v as int / pow(10, i as nat) % 10,
    decreases n,
{
    lemma_padded_len(v, n);
    lemma_padded_len(v / 10, (n - 1) as nat);
    if i == 0 {
        lemma_pow0(10);
    } else {
        padded_has_digits(v / 10, (n - 1) as nat, i - 1);
        bytes::lemma_next_power(v, 10, i as nat);
    }
}

/// The number that digits spell is below the power of 10 that their number says,
/// and the digits are its digits to the base 10.
pub proof fn decimal_value_has_digits(s: Seq<char>, i: int)
    requires
        forall|k: int| 0 <= k < s.len() ==> 48 <= (#[trigger] s[k]) as int <= 57,
        0 <= i < s.len(),
    ensures
        decimal_value(s) < pow(10, s.len()),
        s[s.len() - 1 - i] as int == 48 + decimal_value(s) as int / pow(10, i as nat) % 10,
{
    assert(all_digits(s)) by {
        assert forall|k: int| 0 <= k < s.len() implies is_digit(#[trigger] s[k]) by {
            assert(48 <= s[k] as int <= 57);
        }
    }
    padded_of_value(s);
    padded_has_digits(decimal_value(s), s.len(), i);
    lemma_value_below_power(s);
}

proof fn lemma_value_below_power(s: Seq<char>)
    requires
        all_digits(s),
    ensures
        decimal_value(s) < pow(10, s.len()),
    decreases s.len(),
{
    reveal(pow);
    if s.len() > 0 {
        lemma_value_below_power(s.drop_last());
        assert(is_digit(s.last()));
    }
}

/// A text without the plus sign that it may begin with.
pub open spec fn without_plus(s: Seq<char>) -> Seq<char> {
    if s.len() > 0 && s[0] == '+' {
        s.skip(1)
    } else {
        s
    }
}

/// Whether a text is one or more of the characters `0` to `9`.
pub open spec fn spelled(s: Seq<char>) -> bool {
    s.len() > 0 && (forall|k: int| 0 <= k < s.len() ==> 48 <= (#[trigger] s[k]) as int <= 57)
}

/// A text is parsed to a number where it is that number's digits, leading zeros
/// allowed, behind one plus sign at most, and the number is below the limit; no
/// other text is.
pub proof fn only_digits_are_parsed(s: Seq<char>, limit: nat)
    ensures
        match parsed(s, limit) {
            Some(v) => spelled(without_plus(s)) && v == decimal_value(without_plus(s)) && v < limit,
            None => !spelled(without_plus(s)) || decimal_value(without_plus(s)) >= limit,
        },
{
    let digits = without_plus(s);
    if s.len() > 0 && s[0] == '+' {
        assert(s.drop_first() =~= digits);
    }
    if spelled(digits) {
        assert forall|k: int| 0 <= k < digits.len() implies is_digit(#[trigger] digits[k]) by {
            assert(48 <= digits[k] as int <= 57);
        }
    }
    if all_digits(digits) {
        assert forall|k: int| 0 <= k < digits.len() implies 48 <= (#[trigger] digits[k]) as int
            <= 57 by {
            assert(is_digit(digits[k]));
        }
    }
}

/// A text stands in another from a character on where each of its characters
/// does, and so at the beginning, at the end, or anywhere.
pub proof fn standing_is_by_characters(hay: Seq<char>, needle: Seq<char>, at: int)
    ensures
        stands_at(hay, needle, at) <==> 0 <= at && at + needle.len() <= hay.len() && (forall|k: int|
            0 <= k < needle.len() ==> hay[at + k] == #[trigger] needle[k]),
        stands_at(hay, needle, at) ==> contains_text(hay, needle),
        contains_text(hay, needle) ==> exists|i: int| stands_at(hay, needle, i),
        begins_with(hay, needle) <==> stands_at(hay, needle, 0),
        ends_with_text(hay, needle) <==> stands_at(hay, needle, hay.len() - needle.len()),
{
    if 0 <= at && at + needle.len() <= hay.len() {
        let part = hay.subrange(at, at + needle.len());
        if forall|k: int| 0 <= k < needle.len() ==> hay[at + k] == #[trigger] needle[k] {
            assert(part =~= needle);
        }
        if part == needle {
            assert forall|k: int| 0 <= k < needle.len() implies hay[at + k]
                == #[trigger] needle[k] by {
                assert(part[k] == hay[at + k]);
            }
        }
    }
}

} // verus!
