//! Byte-level helpers: UTF-8, zlib, and the integers of the pack format.

use crate::error::Error;
use std::io::Read;
use std::io::Write;
use vstd::prelude::*;
use vstd::string::StringSliceAdditionalSpecFns;
use vstd::utf8::*;

verus! {

/// `std::str::Utf8Error`: what `std::str::from_utf8` fails with. Nothing
/// is read from it.
#[verifier::external_type_specification]
#[verifier::external_body]
pub struct ExUtf8Error(std::str::Utf8Error);

/// `std::io::Error`: what the zlib streams fail with. Nothing is read
/// from it.
#[verifier::external_type_specification]
#[verifier::external_body]
pub struct ExIoError(std::io::Error);

/// `std::str::from_utf8`: succeeds exactly on well-formed UTF-8, and the
/// text it returns is made of the bytes it was given.
#[verifier::external_body]
fn str_from_utf8(v: &[u8]) -> (res: Result<&str, std::str::Utf8Error>)
    ensures
        res matches Ok(s) ==> valid_utf8(v@) && s.spec_bytes() == v@,
        res is Err ==> !valid_utf8(v@),
{
    std::str::from_utf8(v)
}

/// Reads `v` as UTF-8 text.
pub fn utf8(v: &[u8]) -> (res: Result<String, Error>)
    ensures
        valid_utf8(v@) ==> (res matches Ok(s) && s@ == decode_utf8(v@)),
        !valid_utf8(v@) ==> res == Err::<String, Error>(Error::InvalidUtf8),
{
    match str_from_utf8(v) {
        Ok(s) => {
            proof {
                encode_utf8_decode_utf8(s@);
            }
            Ok(s.to_owned())
        },
        Err(_) => Err(Error::InvalidUtf8),
    }
}

/// What inflating a zlib stream yields: the bytes it holds, or `None`
/// where the decoder reports a failure.
pub uninterp spec fn zlib_inflated(data: Seq<u8>) -> Option<Seq<u8>>;

/// `flate2::read::ZlibDecoder` read to its end: the inflated bytes of the
/// stream that `v` starts with, or the decoder's error.
#[verifier::external_body]
fn zlib_inflate(v: &[u8]) -> (res: Result<Vec<u8>, std::io::Error>)
    ensures
        res matches Ok(out) ==> zlib_inflated(v@) == Some(out@),
        res is Err ==> zlib_inflated(v@) is None,
{
    let mut out = Vec::new();
    match flate2::read::ZlibDecoder::new(v).read_to_end(&mut out) {
        Ok(_) => Ok(out),
        Err(e) => Err(e),
    }
}

/// What compressing bytes into a zlib stream at the default level
/// yields: the stream, or `None` where the encoder reports a failure.
pub uninterp spec fn zlib_deflated(data: Seq<u8>) -> Option<Seq<u8>>;

/// `flate2::write::ZlibEncoder` at the default level, fed `v` and
/// finished: the stream that it makes of `v`, which inflates back to
/// `v`, or the encoder's error.
#[verifier::external_body]
fn zlib_deflate(v: &[u8]) -> (res: Result<Vec<u8>, std::io::Error>)
    ensures
        res matches Ok(out) ==> zlib_deflated(v@) == Some(out@) && zlib_inflated(out@) == Some(v@),
        res is Err ==> zlib_deflated(v@) is None,
{
    let mut encoder = flate2::write::ZlibEncoder::new(Vec::new(), flate2::Compression::default());
    match encoder.write_all(v) {
        Ok(()) => encoder.finish(),
        Err(e) => Err(e),
    }
}

/// Compresses `v` into a zlib stream, which inflates back to `v`.
pub fn encode(v: &[u8]) -> (res: Result<Vec<u8>, Error>)
    ensures
        match zlib_deflated(v@) {
            Some(stream) => res matches Ok(out) && out@ == stream && zlib_inflated(out@) == Some(
                v@,
            ),
            None => res == Err::<Vec<u8>, Error>(Error::CompressFailed),
        },
{
    match zlib_deflate(v) {
        Ok(out) => Ok(out),
        Err(_) => Err(Error::CompressFailed),
    }
}

/// Inflates the zlib stream that `v` starts with.
pub fn decode(v: &[u8]) -> (res: Result<Vec<u8>, Error>)
    ensures
        match zlib_inflated(v@) {
            Some(raw) => res matches Ok(out) && out@ == raw,
            None => res == Err::<Vec<u8>, Error>(Error::CorruptStream),
        },
{
    match zlib_inflate(v) {
        Ok(out) => Ok(out),
        Err(_) => Err(Error::CorruptStream),
    }
}

/// The value of the first four bytes of `s`, read big-endian.
pub open spec fn spec_be_u32(s: Seq<u8>) -> int {
    s[0] as int * 0x100_0000 + s[1] as int * 0x1_0000 + s[2] as int * 0x100 + s[3] as int
}

/// Reads a big-endian `u32` from the first four bytes of `v`.
pub fn be_u32(v: &[u8]) -> (res: u32)
    requires
        v@.len() >= 4,
    ensures
        res as int == spec_be_u32(v@),
{
    let b0: u32 = v[0] as u32;
    let b1: u32 = v[1] as u32;
    let b2: u32 = v[2] as u32;
    let b3: u32 = v[3] as u32;
    b0 * 0x100_0000 + b1 * 0x1_0000 + b2 * 0x100 + b3
}

/// The number of bytes at the start of `s` that have their high bit set.
pub open spec fn run_len(s: Seq<u8>) -> int
    decreases s.len(),
{
    if s.len() == 0 || s[0] < 128 {
        0
    } else {
        1 + run_len(s.drop_first())
    }
}

/// The number that 7-bit groups write, the lowest group first. The high
/// bit of a byte is no part of its group.
pub open spec fn groups_value(s: Seq<u8>) -> nat
    decreases s.len(),
{
    if s.len() == 0 {
        0
    } else {
        (s[0] % 128) as nat + 128 * groups_value(s.drop_first())
    }
}

/// A position with only high-bit bytes before it, and a byte without
/// the high bit at it unless it is the end, is the one that `run_len` gives.
pub proof fn lemma_run_len_is(s: Seq<u8>, p: int)
    requires
        0 <= p <= s.len(),
        forall|i: int| 0 <= i < p ==> s[i] >= 128,
        p < s.len() ==> s[p] < 128,
    ensures
        run_len(s) == p,
    decreases p,
{
    if p > 0 {
        let t = s.drop_first();
        assert forall|i: int| 0 <= i < p - 1 implies t[i] >= 128 by {
            assert(t[i] == s[i + 1]);
        }
        lemma_run_len_is(t, p - 1);
    }
}

/// Groups write at least what the groups after the first `k` write.
pub proof fn lemma_groups_value_suffix(s: Seq<u8>, k: int)
    requires
        0 <= k <= s.len(),
    ensures
        groups_value(s.skip(k)) <= groups_value(s),
    decreases k,
{
    if k == 0 {
        assert(s.skip(0) =~= s);
    } else {
        lemma_groups_value_suffix(s.drop_first(), k - 1);
        assert(s.drop_first().skip(k - 1) =~= s.skip(k));
    }
}

/// Counts the bytes at the start of `v` that have their high bit set.
pub fn leading_run(v: &[u8]) -> (res: usize)
    ensures
        res == run_len(v@),
        res <= v@.len(),
{
    let mut i: usize = 0;
    while i < v.len() && v[i] >= 128
        invariant
            i <= v@.len(),
            forall|j: int| 0 <= j < i ==> v@[j] >= 128,
        decreases v@.len() - i,
    {
        i += 1;
    }
    proof {
        lemma_run_len_is(v@, i as int);
    }
    i
}

/// The number that the 7-bit groups of `v` write, lowest group first,
/// where it is no more than `limit`.
pub fn fold_groups(v: &[u8], limit: u64) -> (res: Option<u64>)
    ensures
        groups_value(v@) <= limit ==> res == Some(groups_value(v@) as u64),
        groups_value(v@) > limit ==> res is None,
{
    let mut acc: u64 = 0;
    let mut i: usize = v.len();
    assert(v@.skip(i as int) =~= Seq::<u8>::empty());
    while i > 0
        invariant
            i <= v@.len(),
            acc == groups_value(v@.skip(i as int)),
            acc <= limit,
        decreases i,
    {
        i -= 1;
        let g: u64 = (v[i] % 128) as u64;
        proof {
            assert(v@.skip(i as int).drop_first() =~= v@.skip(i + 1));
            assert(v@.skip(i as int)[0] == v@[i as int]);
            lemma_groups_value_suffix(v@, i as int);
        }
        if g > limit || acc > (limit - g) / 128 {
            return None;
        }
        acc = acc * 128 + g;
    }
    assert(v@.skip(0) =~= v@);
    Some(acc)
}

/// What a base-128 number at the start of `s` denotes, and how many
/// bytes it takes: 7 bits to a byte, lowest first, up to and with the
/// first byte whose high bit is clear. `None` where no such byte comes,
/// or the number is above `limit`.
pub open spec fn spec_varint(s: Seq<u8>, limit: nat) -> Option<(nat, int)> {
    let n = run_len(s);
    if n >= s.len() || groups_value(s.take(n + 1)) > limit {
        None
    } else {
        Some((groups_value(s.take(n + 1)), n + 1))
    }
}

/// Reads a base-128 number of at most 64 bits from the start of `v`;
/// gives the number and how many bytes it took.
pub fn read_varint(v: &[u8]) -> (res: Option<(u64, usize)>)
    ensures
        match spec_varint(v@, u64::MAX as nat) {
            Some((value, n)) => res == Some((value as u64, n as usize)),
            None => res is None,
        },
        res matches Some((_, n)) ==> 0 < n <= v@.len(),
        spec_varint(v@, u64::MAX as nat) matches Some((_, n)) ==> 0 < n <= v@.len(),
{
    let n = leading_run(v);
    if n >= v.len() {
        return None;
    }
    match fold_groups(&v[0..n + 1], u64::MAX) {
        Some(value) => Some((value, n + 1)),
        None => None,
    }
}

/// Reads a base-128 number of at most 32 bits from the start of `v`;
/// gives the number and the bytes after it.
pub fn var_u32_tail(v: &[u8]) -> (res: Option<(u32, &[u8])>)
    ensures
        match spec_varint(v@, u32::MAX as nat) {
            Some((value, n)) => res matches Some((x, tail)) && x == value && tail@ == v@.skip(n),
            None => res is None,
        },
{
    let n = leading_run(v);
    if n >= v.len() {
        return None;
    }
    match fold_groups(&v[0..n + 1], u32::MAX as u64) {
        Some(value) => Some((value as u32, &v[n + 1..v.len()])),
        None => None,
    }
}

/// The 7-bit groups after the first byte of `s`: one for each byte up to
/// and with the first whose high bit is clear.
pub open spec fn spec_tail_groups(s: Seq<u8>) -> Seq<u8> {
    Seq::new(run_len(s) as nat, |i: int| s[i + 1] % 128)
}

/// Splits the bytes after the first of `v` into 7-bit groups, up to and
/// with the first byte whose high bit is clear; gives the groups and
/// the bytes after them. `None` where no such byte comes.
pub fn varint(v: &[u8]) -> (res: Option<(Vec<u8>, &[u8])>)
    ensures
        run_len(v@) < v@.len() ==> (res matches Some((groups, tail)) && groups@ == spec_tail_groups(
            v@,
        ) && tail@ == v@.skip(run_len(v@) + 1)),
        run_len(v@) >= v@.len() ==> res is None,
{
    let n = leading_run(v);
    if n >= v.len() {
        return None;
    }
    let mut groups: Vec<u8> = Vec::new();
    let mut i: usize = 0;
    while i < n
        invariant
            i <= n < v@.len(),
            groups@.len() == i,
            forall|j: int| 0 <= j < i ==> groups@[j] == v@[j + 1] % 128,
        decreases n - i,
    {
        groups.push(v[i + 1] % 128);
        i += 1;
    }
    assert(groups@ =~= spec_tail_groups(v@));
    Some((groups, &v[n + 1..v.len()]))
}

/// The number of at most 32 bits that 7-bit groups write, lowest group first.
pub fn var_u32(v: &[u8]) -> (res: Option<u32>)
    ensures
        groups_value(v@) <= u32::MAX ==> res == Some(groups_value(v@) as u32),
        groups_value(v@) > u32::MAX ==> res is None,
{
    match fold_groups(v, u32::MAX as u64) {
        Some(value) => Some(value as u32),
        None => None,
    }
}

/// The bytes that write `n` in 7-bit groups, lowest first, every byte
/// but the last with its high bit set.
pub open spec fn groups_of(n: nat) -> Seq<u8>
    decreases n,
{
    if n < 128 {
        seq![n as u8]
    } else {
        seq![(n % 128 + 128) as u8] + groups_of(n / 128)
    }
}

/// The groups of a number end with its first byte without the high
/// bit, and write that number.
pub proof fn lemma_groups_of(n: nat, rest: Seq<u8>)
    ensures
        groups_of(n).len() >= 1,
        run_len(groups_of(n) + rest) == groups_of(n).len() - 1,
        groups_value(groups_of(n)) == n,
    decreases n,
{
    let g = groups_of(n);
    let s = g + rest;
    if n < 128 {
        assert(s[0] == n as u8);
        assert(g.drop_first() =~= Seq::<u8>::empty());
        assert(groups_value(g.drop_first()) == 0);
    } else {
        let tail = groups_of(n / 128);
        lemma_groups_of(n / 128, rest);
        assert(s[0] == (n % 128 + 128) as u8);
        assert(s.drop_first() =~= tail + rest);
        assert(g.drop_first() =~= tail);
        assert(g[0] % 128 == n % 128);
    }
}

/// The bytes that write a number, with anything after them, are read
/// as that number.
pub proof fn lemma_varint_round_trip(n: nat, rest: Seq<u8>, limit: nat)
    requires
        n <= limit,
    ensures
        spec_varint(groups_of(n) + rest, limit) == Some((n, groups_of(n).len() as int)),
{
    lemma_groups_of(n, rest);
    assert((groups_of(n) + rest).take(groups_of(n).len() as int) =~= groups_of(n));
}

} // verus!
