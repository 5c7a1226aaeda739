//! Searching bytes, and the decimal and hexadecimal notations that the
//! object format writes its numbers and hashes in.

use vstd::prelude::*;
use vstd::utf8::*;

verus! {

/// The index of the first `b` in `s`, or the length of `s` where it holds none.
pub open spec fn find_byte(s: Seq<u8>, b: u8) -> int
    decreases s.len(),
{
    if s.len() == 0 {
        0
    } else if s[0] == b {
        0
    } else {
        1 + find_byte(s.drop_first(), b)
    }
}

/// `b` does not occur in `s`.
pub open spec fn no_byte(s: Seq<u8>, b: u8) -> bool {
    forall|i: int| 0 <= i < s.len() ==> s[i] != b
}

/// `find_byte` stays within `s`, nothing before it is `b`, and where it
/// is an index the byte there is `b`.
pub proof fn lemma_find_byte(s: Seq<u8>, b: u8)
    ensures
        0 <= find_byte(s, b) <= s.len(),
        forall|i: int| 0 <= i < find_byte(s, b) ==> s[i] != b,
        find_byte(s, b) < s.len() ==> s[find_byte(s, b)] == b,
    decreases s.len(),
{
    if s.len() != 0 && s[0] != b {
        let t = s.drop_first();
        lemma_find_byte(t, b);
        assert forall|i: int| 0 <= i < find_byte(s, b) implies s[i] != b by {
            if i > 0 {
                assert(s[i] == t[i - 1]);
            }
        }
    }
}

/// A position with nothing equal to `b` before it, and `b` at it unless
/// it is the end, is the one that `find_byte` gives.
pub proof fn lemma_find_byte_is(s: Seq<u8>, b: u8, p: int)
    requires
        0 <= p <= s.len(),
        forall|i: int| 0 <= i < p ==> s[i] != b,
        p < s.len() ==> s[p] == b,
    ensures
        find_byte(s, b) == p,
    decreases p,
{
    if p > 0 {
        let t = s.drop_first();
        assert forall|i: int| 0 <= i < p - 1 implies t[i] != b by {
            assert(t[i] == s[i + 1]);
        }
        lemma_find_byte_is(t, b, p - 1);
    }
}

/// Finds the first `b` in `v`; the length of `v` where there is none.
pub fn position(v: &[u8], b: u8) -> (res: usize)
    ensures
        res == find_byte(v@, b),
        res <= v@.len(),
{
    let mut i: usize = 0;
    while i < v.len() && v[i] != b
        invariant
            i <= v@.len(),
            forall|j: int| 0 <= j < i ==> v@[j] != b,
        decreases v@.len() - i,
    {
        i += 1;
    }
    proof {
        lemma_find_byte_is(v@, b, i as int);
    }
    i
}

/// `v` begins with the bytes of `prefix`.
pub fn starts_with(v: &[u8], prefix: &[u8]) -> (res: bool)
    ensures
        res == (prefix@.len() <= v@.len() && v@.take(prefix@.len() as int) == prefix@),
{
    if prefix.len() > v.len() {
        return false;
    }
    let mut i: usize = 0;
    while i < prefix.len()
        invariant
            i <= prefix@.len() <= v@.len(),
            forall|j: int| 0 <= j < i ==> v@[j] == prefix@[j],
        decreases prefix@.len() - i,
    {
        if v[i] != prefix[i] {
            assert(v@.take(prefix@.len() as int)[i as int] != prefix@[i as int]);
            return false;
        }
        i += 1;
    }
    assert(v@.take(prefix@.len() as int) =~= prefix@);
    true
}

/// `c` is one of the ASCII digits `0` to `9`.
pub open spec fn is_digit(c: u8) -> bool {
    48 <= c <= 57
}

/// Every byte of `s` is an ASCII digit.
pub open spec fn all_digits(s: Seq<u8>) -> bool {
    forall|i: int| 0 <= i < s.len() ==> is_digit(#[trigger] s[i])
}

/// The number that the digits of `s` write in base ten.
pub open spec fn digits_value(s: Seq<u8>) -> nat
    decreases s.len(),
{
    if s.len() == 0 {
        0
    } else {
        (digits_value(s.drop_last()) * 10 + (s.last() - 48)) as nat
    }
}

/// What a run of decimal digits denotes: its value where it is not empty,
/// holds digits only and fits in 64 bits.
pub open spec fn spec_parse_decimal(s: Seq<u8>) -> Option<u64> {
    if s.len() > 0 && all_digits(s) && digits_value(s) <= u64::MAX {
        Some(digits_value(s) as u64)
    } else {
        None
    }
}

/// A number written in digits is at least the number that any of its
/// prefixes writes.
pub proof fn lemma_digits_value_prefix(s: Seq<u8>, k: int)
    requires
        all_digits(s),
        0 <= k <= s.len(),
    ensures
        digits_value(s.take(k)) <= digits_value(s),
    decreases s.len() - k,
{
    if k < s.len() {
        lemma_digits_value_prefix(s, k + 1);
        let t = s.take(k + 1);
        assert(t.drop_last() =~= s.take(k));
        assert(is_digit(s[k]));
        assert(t.last() == s[k]);
    } else {
        assert(s.take(k) =~= s);
    }
}

/// Reads a run of decimal digits as a `u64`.
pub fn parse_decimal(v: &[u8]) -> (res: Option<u64>)
    ensures
        res == spec_parse_decimal(v@),
{
    if v.len() == 0 {
        return None;
    }
    let mut acc: u64 = 0;
    let mut i: usize = 0;
    while i < v.len()
        invariant
            i <= v@.len(),
            all_digits(v@.take(i as int)),
            acc == digits_value(v@.take(i as int)),
        decreases v@.len() - i,
    {
        let c: u8 = v[i];
        if c < 48 || c > 57 {
            assert(!is_digit(v@[i as int]));
            return None;
        }
        let d: u64 = (c - 48) as u64;
        proof {
            let t = v@.take(i + 1);
            assert(t.drop_last() =~= v@.take(i as int));
            assert(t.last() == c);
            assert forall|j: int| 0 <= j < t.len() implies is_digit(#[trigger] t[j]) by {
                if j < i {
                    assert(t[j] == v@.take(i as int)[j]);
                }
            }
        }
        if acc > (u64::MAX - d) / 10 {
            proof {
                if all_digits(v@) {
                    lemma_digits_value_prefix(v@, i + 1);
                }
            }
            return None;
        }
        acc = acc * 10 + d;
        i += 1;
    }
    assert(v@.take(i as int) =~= v@);
    Some(acc)
}

/// The digits that write `n` in base ten, without leading zeros.
pub open spec fn decimal_digits(n: nat) -> Seq<u8>
    decreases n,
{
    if n < 10 {
        seq![(48 + n) as u8]
    } else {
        decimal_digits(n / 10).push((48 + n % 10) as u8)
    }
}

/// The digits of a number are digits, and they write that number.
pub proof fn lemma_decimal_digits(n: nat)
    ensures
        decimal_digits(n).len() > 0,
        all_digits(decimal_digits(n)),
        digits_value(decimal_digits(n)) == n,
    decreases n,
{
    if n < 10 {
        let s = decimal_digits(n);
        assert(s.drop_last() =~= Seq::<u8>::empty());
        assert(digits_value(s.drop_last()) == 0);
    } else {
        lemma_decimal_digits(n / 10);
        let p = decimal_digits(n / 10);
        let s = decimal_digits(n);
        assert(s.drop_last() =~= p);
        assert(s.last() == (48 + n % 10) as u8);
    }
}

/// Writes `n` in base ten.
pub fn format_decimal(n: u64) -> (res: Vec<u8>)
    ensures
        res@ == decimal_digits(n as nat),
    decreases n,
{
    if n < 10 {
        let mut v: Vec<u8> = Vec::new();
        v.push(48 + n as u8);
        assert(v@ =~= decimal_digits(n as nat));
        v
    } else {
        let mut v = format_decimal(n / 10);
        v.push(48 + (n % 10) as u8);
        v
    }
}

/// The lowercase hex digit for a value below 16.
pub open spec fn hex_digit(n: int) -> u8 {
    if n < 10 {
        (48 + n) as u8
    } else {
        (87 + n) as u8
    }
}

/// Two lowercase hex digits for each byte of `s`, high half first.
pub open spec fn hex_text(s: Seq<u8>) -> Seq<u8> {
    Seq::new(
        2 * s.len(),
        |i: int|
            if i % 2 == 0 {
                hex_digit(s[i / 2] as int / 16)
            } else {
                hex_digit(s[i / 2] as int % 16)
            },
    )
}

/// The value of a hex digit of either case; -1 for any other byte.
pub open spec fn hex_val(c: u8) -> int {
    if 48 <= c <= 57 {
        c - 48
    } else if 97 <= c <= 102 {
        c - 87
    } else if 65 <= c <= 70 {
        c - 55
    } else {
        -1
    }
}

/// `s` is an even number of hex digits.
pub open spec fn is_hex_text(s: Seq<u8>) -> bool {
    s.len() % 2 == 0 && forall|i: int| 0 <= i < s.len() ==> hex_val(#[trigger] s[i]) >= 0
}

/// The bytes that the hex digits of `s` write, two digits to a byte.
pub open spec fn hex_bytes(s: Seq<u8>) -> Seq<u8> {
    Seq::new((s.len() / 2) as nat, |i: int| (hex_val(s[2 * i]) * 16 + hex_val(s[2 * i + 1])) as u8)
}

/// Hex text made from bytes is hex text, and reads back as those bytes.
pub proof fn lemma_hex_text(s: Seq<u8>)
    ensures
        hex_text(s).len() == 2 * s.len(),
        is_hex_text(hex_text(s)),
        hex_bytes(hex_text(s)) == s,
        no_byte(hex_text(s), 10),
{
    let t = hex_text(s);
    assert forall|i: int| 0 <= i < t.len() implies hex_val(#[trigger] t[i]) >= 0 && t[i] != 10 by {
        let b = s[i / 2];
        assert(0 <= b as int / 16 < 16);
        assert(0 <= b as int % 16 < 16);
    }
    assert forall|i: int| 0 <= i < s.len() implies hex_bytes(t)[i] == s[i] by {
        let b = s[i];
        assert(t[2 * i] == hex_digit(b as int / 16));
        assert(t[2 * i + 1] == hex_digit(b as int % 16));
        assert(hex_val(hex_digit(b as int / 16)) == b as int / 16);
        assert(hex_val(hex_digit(b as int % 16)) == b as int % 16);
    }
    assert(hex_bytes(t) =~= s);
}

/// The characters whose codes are the bytes of `s`.
pub open spec fn ascii_chars(s: Seq<u8>) -> Seq<char> {
    Seq::new(s.len(), |i: int| s[i] as char)
}

/// Every byte of `s` is below 128.
pub open spec fn is_ascii_bytes(s: Seq<u8>) -> bool {
    forall|i: int| 0 <= i < s.len() ==> #[trigger] s[i] < 128
}

/// Bytes below 128 are UTF-8, one character to a byte.
pub proof fn lemma_ascii_utf8(s: Seq<u8>)
    requires
        is_ascii_bytes(s),
    ensures
        valid_utf8(s),
        decode_utf8(s) == ascii_chars(s),
        encode_utf8(ascii_chars(s)) == s,
{
    let chars = ascii_chars(s);
    assert(is_ascii_chars(chars)) by {
        assert forall|i: int| 0 <= i < chars.len() implies '\0' <= #[trigger] chars[i] <= '\u{7f}' by {
            assert(s[i] < 128);
        }
    }
    is_ascii_chars_encode_utf8(chars);
    assert(encode_utf8(chars) =~= s) by {
        assert forall|i: int| 0 <= i < s.len() implies encode_utf8(chars)[i] == s[i] by {
            assert(chars[i] as u8 == encode_utf8(chars)[i]);
            assert(s[i] < 128);
        }
    }
    encode_utf8_valid_utf8(chars);
    encode_utf8_decode_utf8(chars);
}

/// Past a prefix that holds no `b`, the first `b` is where it is in the rest.
pub proof fn lemma_find_byte_past(a: Seq<u8>, rest: Seq<u8>, b: u8)
    requires
        no_byte(a, b),
    ensures
        find_byte(a + rest, b) == a.len() + find_byte(rest, b),
{
    let s = a + rest;
    let p = a.len() + find_byte(rest, b);
    lemma_find_byte(rest, b);
    assert forall|i: int| 0 <= i < p implies s[i] != b by {
        if i >= a.len() {
            assert(s[i] == rest[i - a.len()]);
        }
    }
    if p < s.len() {
        assert(s[p] == rest[p - a.len()]);
    }
    lemma_find_byte_is(s, b, p);
}

/// Where no `b` stands before the first of the bytes that follow `a`,
/// and that byte is `b`, the first `b` comes right after `a`.
pub proof fn lemma_find_byte_at(a: Seq<u8>, rest: Seq<u8>, b: u8)
    requires
        no_byte(a, b),
        rest.len() > 0,
        rest[0] == b,
    ensures
        find_byte(a + rest, b) == a.len(),
{
    lemma_find_byte_past(a, rest, b);
}

/// Digits are below 128, and none of them is `b` where `b` is no digit.
pub proof fn lemma_digits_no_byte(s: Seq<u8>, b: u8)
    requires
        all_digits(s),
        !is_digit(b),
    ensures
        no_byte(s, b),
{
    assert forall|i: int| 0 <= i < s.len() implies s[i] != b by {
        assert(is_digit(s[i]));
    }
}

/// Whether `b` does not occur in `v`.
pub fn lacks(v: &[u8], b: u8) -> (res: bool)
    ensures
        res == no_byte(v@, b),
{
    let p = position(v, b);
    proof {
        lemma_find_byte(v@, b);
    }
    p == v.len()
}

/// `a` comes before `b`: byte by byte, the first difference decides,
/// and a prefix comes before what it is a prefix of.
pub open spec fn lex_lt(a: Seq<u8>, b: Seq<u8>) -> bool
    decreases a.len(),
{
    if b.len() == 0 {
        false
    } else if a.len() == 0 {
        true
    } else if a[0] != b[0] {
        a[0] < b[0]
    } else {
        lex_lt(a.drop_first(), b.drop_first())
    }
}

/// `a` does not come after `b`.
pub open spec fn lex_le(a: Seq<u8>, b: Seq<u8>) -> bool {
    !lex_lt(b, a)
}

/// Nothing comes before itself.
pub proof fn lemma_lex_irreflexive(a: Seq<u8>)
    ensures
        !lex_lt(a, a),
    decreases a.len(),
{
    if a.len() != 0 {
        lemma_lex_irreflexive(a.drop_first());
    }
}

/// Of two byte strings one comes before the other, or they are equal.
pub proof fn lemma_lex_total(a: Seq<u8>, b: Seq<u8>)
    ensures
        lex_lt(a, b) || lex_lt(b, a) || a == b,
        !(lex_lt(a, b) && lex_lt(b, a)),
    decreases a.len(),
{
    if a.len() == 0 || b.len() == 0 {
        if a.len() == 0 && b.len() == 0 {
            assert(a =~= b);
        }
    } else {
        lemma_lex_total(a.drop_first(), b.drop_first());
        if a[0] == b[0] && a.drop_first() == b.drop_first() {
            assert(a =~= seq![a[0]] + a.drop_first());
            assert(b =~= seq![b[0]] + b.drop_first());
        }
    }
}

/// What does not come after something that does not come after a
/// third, does not come after the third.
pub proof fn lemma_lex_le_trans(a: Seq<u8>, b: Seq<u8>, c: Seq<u8>)
    requires
        lex_le(a, b),
        lex_le(b, c),
    ensures
        lex_le(a, c),
    decreases a.len(),
{
    if a.len() != 0 && b.len() != 0 && c.len() != 0 {
        if a[0] == b[0] && b[0] == c[0] {
            lemma_lex_le_trans(a.drop_first(), b.drop_first(), c.drop_first());
        }
    }
}

/// Whether the bytes of `a` come before those of `b`.
pub fn bytes_before(a: &[u8], b: &[u8]) -> (res: bool)
    ensures
        res == lex_lt(a@, b@),
{
    let mut i: usize = 0;
    assert(a@.skip(0) =~= a@);
    assert(b@.skip(0) =~= b@);
    while i < a.len() && i < b.len()
        invariant
            i <= a@.len(),
            i <= b@.len(),
            lex_lt(a@, b@) == lex_lt(a@.skip(i as int), b@.skip(i as int)),
        decreases a@.len() - i,
    {
        proof {
            assert(a@.skip(i as int).drop_first() =~= a@.skip(i + 1));
            assert(b@.skip(i as int).drop_first() =~= b@.skip(i + 1));
            assert(a@.skip(i as int)[0] == a@[i as int]);
            assert(b@.skip(i as int)[0] == b@[i as int]);
        }
        if a[i] != b[i] {
            return a[i] < b[i];
        }
        i += 1;
    }
    i < b.len()
}

/// What does not come after something that comes before a third, comes
/// before the third.
pub proof fn lemma_lex_le_lt(a: Seq<u8>, b: Seq<u8>, c: Seq<u8>)
    requires
        lex_le(a, b),
        lex_lt(b, c),
    ensures
        lex_lt(a, c),
    decreases a.len(),
{
    if a.len() != 0 && b.len() != 0 && c.len() != 0 {
        if a[0] == b[0] && b[0] == c[0] {
            lemma_lex_le_lt(a.drop_first(), b.drop_first(), c.drop_first());
        }
    }
}

} // verus!
