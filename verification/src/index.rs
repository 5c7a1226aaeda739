//! The index of a pack: a fanout table and a table of hashes in
//! ascending order, each with a checksum and an offset into the pack.

use crate::error::Error;
use crate::text::{
    bytes_before, lemma_lex_irreflexive, lemma_lex_le_lt, lemma_lex_le_trans, lemma_lex_total,
    lex_le, lex_lt,
};
use crate::util::be_u32;
use crate::util::spec_be_u32;
use vstd::prelude::*;

verus! {

/// One line of the index: where in the pack an object starts.
#[derive(Clone, Copy, Debug, PartialEq, Eq)]
pub struct PackIndexEntry {
    pub hash: crate::object::Hash,
    pub crc32: u32,
    pub offset: u64,
}

/// A line of the index as mathematics.
pub struct IndexEntryView {
    pub hash: Seq<u8>,
    pub crc32: u32,
    pub offset: u64,
}

impl View for PackIndexEntry {
    type V = IndexEntryView;

    open spec fn view(&self) -> IndexEntryView {
        IndexEntryView { hash: self.hash@, crc32: self.crc32, offset: self.offset }
    }
}

/// A decoded index.
#[derive(Debug, PartialEq, Eq)]
pub struct PackIndex {
    fanout: Vec<u32>,
    entries: Vec<PackIndexEntry>,
}

/// An index as mathematics: 256 cumulative counts, and the lines.
pub struct PackIndexView {
    pub fanout: Seq<u32>,
    pub entries: Seq<IndexEntryView>,
}

impl View for PackIndex {
    type V = PackIndexView;

    closed spec fn view(&self) -> PackIndexView {
        PackIndexView { fanout: self.fanout@, entries: entry_views(self.entries@) }
    }
}

impl PackIndex {
    #[verifier::type_invariant]
    spec fn well_formed(self) -> bool {
        wf_index(self@)
    }

    /// Decodes an index of version 2.
    pub fn parse(bytes: &[u8]) -> (res: Result<PackIndex, Error>)
        ensures
            crate::object::agrees(res, spec_parse_index(bytes@)),
            res matches Ok(index) ==> wf_index(index@),
    {
        let len = bytes.len();
        if len < 8 {
            return Err(Error::MalformedIndex);
        }
        if read_u32(bytes, 4) != 2 {
            return Err(Error::UnsupportedVersion);
        }
        if len < 1032 {
            return Err(Error::MalformedIndex);
        }
        let ghost view = index_view(bytes@);
        let fanout = read_fanout(bytes);
        if !check_fanout(&fanout) {
            return Err(Error::MalformedIndex);
        }
        let count: u32 = fanout[255];
        assert(count == index_count(bytes@));
        if (len as u64) < 1032 + 28 * (count as u64) + 40 {
            return Err(Error::MalformedIndex);
        }
        let entries = match read_lines(bytes, count as usize) {
            Some(lines) => lines,
            None => {
                return Err(Error::MalformedIndex);
            },
        };
        assert(view == (PackIndexView { fanout: fanout@, entries: entry_views(entries@) }));
        proof {
            lemma_buckets(view);
            if adjacent_sorted(view.entries) {
                assert forall|i: int, j: int| 0 <= i < j < view.entries.len() implies lex_le(
                    (#[trigger] view.entries[i]).hash,
                    (#[trigger] view.entries[j]).hash,
                ) by {
                    lemma_adjacent_sorted(view.entries, i, j);
                }
            }
            if hashes_sorted(view.entries) {
                assert forall|i: int| 0 < i < view.entries.len() implies lex_le(
                    view.entries[i - 1].hash,
                    (#[trigger] view.entries[i]).hash,
                ) by {
                    assert(lex_le(view.entries[i - 1].hash, view.entries[i].hash));
                }
            }
            assert forall|i: int| 0 <= i < view.entries.len() implies (
            #[trigger] view.entries[i]).hash.len() == 20 by {
                assert(hash_at(bytes@, i).len() == 20);
            }
        }
        if !check_sorted(&entries) {
            return Err(Error::MalformedIndex);
        }
        if !check_buckets(&fanout, &entries) {
            return Err(Error::MalformedIndex);
        }
        Ok(PackIndex { fanout, entries })
    }

    /// The number of lines.
    pub fn object_count(&self) -> (res: u32)
        ensures
            res == self@.entries.len(),
            wf_index(self@),
    {
        proof {
            use_type_invariant(self);
        }
        self.fanout[255]
    }

    /// The count of the fanout table for the byte `b`: the number of
    /// lines whose hash starts with `b` or a lower byte.
    pub fn fanout(&self, b: u8) -> (res: u32)
        ensures
            res == self@.fanout[b as int],
            wf_index(self@),
    {
        proof {
            use_type_invariant(self);
        }
        self.fanout[b as usize]
    }

    /// Line `i` of the index.
    pub fn entry(&self, i: usize) -> (res: Option<PackIndexEntry>)
        ensures
            i < self@.entries.len() ==> (res matches Some(e) && e@ == self@.entries[i as int]),
            i >= self@.entries.len() ==> res is None,
    {
        if i < self.entries.len() {
            Some(self.entries[i])
        } else {
            None
        }
    }

    /// Looks a hash up: the offset of the first line that holds it.
    pub fn find(&self, hash: &crate::object::Hash) -> (res: Option<u64>)
        ensures
            res == spec_find(self@, hash@),
            wf_index(self@),
    {
        proof {
            use_type_invariant(self);
            hash.lemma_len();
        }
        let ghost lines = self@.entries;
        let ghost target = hash@;
        let first: u8 = hash.bytes()[0];
        let mut lo: usize = if first == 0 {
            0
        } else {
            self.fanout[(first - 1) as usize] as usize
        };
        let mut hi: usize = self.fanout[first as usize] as usize;
        proof {
            lemma_fanout_sorted(self@.fanout, first as int, 255);
            if first > 0 {
                lemma_fanout_sorted(self@.fanout, first as int - 1, first as int);
            }
            assert forall|j: int| 0 <= j < lo implies lex_lt((#[trigger] lines[j]).hash, target) by {
                assert(lines[j].hash[0] <= first as int - 1 <==> j < self@.fanout[first as int
                    - 1]);
                assert(lines[j].hash.len() == 20);
            }
            assert forall|j: int| hi <= j < lines.len() implies !lex_lt(
                (#[trigger] lines[j]).hash,
                target,
            ) by {
                assert(lines[j].hash[0] <= first as int <==> j < self@.fanout[first as int]);
                assert(lines[j].hash.len() == 20);
            }
        }
        while lo < hi
            invariant
                lo <= hi <= lines.len(),
                lines == self@.entries,
                lines.len() == self.entries@.len(),
                target == hash@,
                hashes_sorted(lines),
                forall|j: int| 0 <= j < lo ==> lex_lt((#[trigger] lines[j]).hash, target),
                forall|j: int| hi <= j < lines.len() ==> !lex_lt((#[trigger] lines[j]).hash, target),
            decreases hi - lo,
        {
            let mid: usize = lo + (hi - lo) / 2;
            assert(lines[mid as int] == self.entries@[mid as int]@);
            if bytes_before(self.entries[mid].hash.bytes(), hash.bytes()) {
                proof {
                    assert forall|j: int| 0 <= j < mid + 1 implies lex_lt(
                        (#[trigger] lines[j]).hash,
                        target,
                    ) by {
                        if j < mid {
                            assert(lex_le(lines[j].hash, lines[mid as int].hash));
                            lemma_lex_le_lt(lines[j].hash, lines[mid as int].hash, target);
                        }
                    }
                }
                lo = mid + 1;
            } else {
                proof {
                    assert forall|j: int| mid <= j < lines.len() implies !lex_lt(
                        (#[trigger] lines[j]).hash,
                        target,
                    ) by {
                        if j > mid && lex_lt(lines[j].hash, target) {
                            assert(lex_le(lines[mid as int].hash, lines[j].hash));
                            lemma_lex_le_lt(lines[mid as int].hash, lines[j].hash, target);
                        }
                    }
                }
                hi = mid;
            }
        }
        proof {
            assert forall|j: int| 0 <= j < lo implies (#[trigger] lines[j]).hash != target by {
                lemma_lex_irreflexive(target);
            }
        }
        if lo < self.entries.len() && self.entries[lo].hash.same(hash) {
            proof {
                assert(lines[lo as int] == self.entries@[lo as int]@);
                lemma_first_with_hash(lines, target, lo as int);
            }
            Some(self.entries[lo].offset)
        } else {
            proof {
                assert forall|j: int| 0 <= j < lines.len() implies (#[trigger] lines[j]).hash
                    != target by {
                    if j >= lo {
                        assert(lines[lo as int] == self.entries@[lo as int]@);
                        let at = lines[lo as int].hash;
                        lemma_lex_total(at, target);
                        if j > lo {
                            assert(lex_le(at, lines[j].hash));
                        }
                    }
                }
                lemma_first_with_hash(lines, target, lines.len() as int);
            }
            None
        }
    }
}

/// The views of a run of lines.
pub open spec fn entry_views(s: Seq<PackIndexEntry>) -> Seq<IndexEntryView> {
    Seq::new(s.len(), |i: int| s[i]@)
}

/// The counts never go down.
pub open spec fn fanout_sorted(fanout: Seq<u32>) -> bool {
    forall|b: int| 0 <= b < 255 ==> #[trigger] fanout[b] <= fanout[b + 1]
}

/// The count for a byte is the number of lines whose hash starts with
/// that byte or a lower one: those lines are the first so many.
pub open spec fn fanout_counts(v: PackIndexView) -> bool {
    forall|i: int, b: int|
        0 <= i < v.entries.len() && 0 <= b < 256 ==> ((#[trigger] v.entries[i]).hash[0] <= b <==> i
            < #[trigger] v.fanout[b])
}

/// No line comes before a line that stands above it.
pub open spec fn hashes_sorted(entries: Seq<IndexEntryView>) -> bool {
    forall|i: int, j: int|
        0 <= i < j < entries.len() ==> lex_le(
            (#[trigger] entries[i]).hash,
            (#[trigger] entries[j]).hash,
        )
}

/// What holds of every decoded index: 256 counts that never go down, of
/// which the last is the number of lines; hashes of 20 bytes in
/// ascending order; and counts that agree with the hashes.
pub open spec fn wf_index(v: PackIndexView) -> bool {
    &&& v.fanout.len() == 256
    &&& v.entries.len() == v.fanout[255]
    &&& forall|i: int| 0 <= i < v.entries.len() ==> (#[trigger] v.entries[i]).hash.len() == 20
    &&& fanout_sorted(v.fanout)
    &&& fanout_counts(v)
    &&& hashes_sorted(v.entries)
}

/// The big-endian `u32` that stands at `p`.
pub open spec fn u32_at(s: Seq<u8>, p: int) -> int {
    spec_be_u32(s.subrange(p, p + 4))
}

/// The big-endian `u64` that stands at `p`.
pub open spec fn u64_at(s: Seq<u8>, p: int) -> int {
    u32_at(s, p) * 0x1_0000_0000 + u32_at(s, p + 4)
}

/// The count that the fanout table holds for the byte `b`.
pub open spec fn fanout_at(s: Seq<u8>, b: int) -> int {
    u32_at(s, 8 + 4 * b)
}

/// The number of lines: the last count.
pub open spec fn index_count(s: Seq<u8>) -> int {
    fanout_at(s, 255)
}

/// The hash of line `i`.
pub open spec fn hash_at(s: Seq<u8>, i: int) -> Seq<u8> {
    s.subrange(1032 + 20 * i, 1052 + 20 * i)
}

/// The checksum of line `i`.
pub open spec fn crc_at(s: Seq<u8>, i: int) -> int {
    u32_at(s, 1032 + 20 * index_count(s) + 4 * i)
}

/// The word of the offset table for line `i`.
pub open spec fn offset_word_at(s: Seq<u8>, i: int) -> int {
    u32_at(s, 1032 + 24 * index_count(s) + 4 * i)
}

/// The number of 8-byte offsets between the offset table and the two
/// trailing checksums.
pub open spec fn large_count(s: Seq<u8>) -> int {
    (s.len() - 40 - (1032 + 28 * index_count(s))) / 8
}

/// The offset of line `i`: its word, or, where the high bit of the word
/// is set, the 8-byte offset that the rest of the word numbers. `None`
/// where there is no 8-byte offset of that number.
pub open spec fn offset_at(s: Seq<u8>, i: int) -> Option<u64> {
    let w = offset_word_at(s, i);
    if w < 0x8000_0000 {
        Some(w as u64)
    } else if w - 0x8000_0000 < large_count(s) {
        Some(u64_at(s, 1032 + 28 * index_count(s) + 8 * (w - 0x8000_0000)) as u64)
    } else {
        None
    }
}

/// Line `i` of the index.
pub open spec fn entry_at(s: Seq<u8>, i: int) -> IndexEntryView {
    IndexEntryView { hash: hash_at(s, i), crc32: crc_at(s, i) as u32, offset: offset_at(s, i)->0 }
}

/// The index that the bytes hold.
pub open spec fn index_view(s: Seq<u8>) -> PackIndexView {
    PackIndexView {
        fanout: Seq::new(256, |b: int| fanout_at(s, b) as u32),
        entries: Seq::new(index_count(s) as nat, |i: int| entry_at(s, i)),
    }
}

/// The bytes hold the fanout table, the three tables of as many lines
/// as the last count says, and the two trailing checksums; and every
/// line has an offset.
pub open spec fn tables_fit(s: Seq<u8>) -> bool {
    &&& s.len() >= 1032
    &&& s.len() >= 1032 + 28 * index_count(s) + 40
    &&& forall|i: int| 0 <= i < index_count(s) ==> (#[trigger] offset_at(s, i)) is Some
}

/// What the bytes of an index denote.
pub open spec fn spec_parse_index(s: Seq<u8>) -> Result<PackIndexView, Error> {
    if s.len() < 8 {
        Err(Error::MalformedIndex)
    } else if u32_at(s, 4) != 2 {
        Err(Error::UnsupportedVersion)
    } else if !tables_fit(s) || !wf_index(index_view(s)) {
        Err(Error::MalformedIndex)
    } else {
        Ok(index_view(s))
    }
}

/// Counts that never go down from one byte to the next never go down
/// from a byte to any higher one.
pub proof fn lemma_fanout_sorted(fanout: Seq<u32>, a: int, b: int)
    requires
        fanout.len() == 256,
        fanout_sorted(fanout),
        0 <= a <= b < 256,
    ensures
        fanout[a] <= fanout[b],
    decreases b - a,
{
    if a < b {
        lemma_fanout_sorted(fanout, a, b - 1);
        assert(fanout[b - 1] <= fanout[b - 1 + 1]);
    }
}

/// Reads the big-endian `u32` that stands at `p`.
pub fn read_u32(v: &[u8], p: usize) -> (res: u32)
    requires
        p + 4 <= v@.len(),
    ensures
        res == u32_at(v@, p as int),
{
    let len = v.len();
    assert(p + 4 <= len);
    be_u32(&v[p..p + 4])
}

/// Reads the 256 counts of the fanout table.
fn read_fanout(bytes: &[u8]) -> (res: Vec<u32>)
    requires
        bytes@.len() >= 1032,
    ensures
        res@ == index_view(bytes@).fanout,
{
    let mut fanout: Vec<u32> = Vec::new();
    let mut b: usize = 0;
    while b < 256
        invariant
            b <= 256,
            bytes@.len() >= 1032,
            fanout@.len() == b,
            forall|j: int| 0 <= j < b ==> fanout@[j] == fanout_at(bytes@, j) as u32,
        decreases 256 - b,
    {
        let count = read_u32(bytes, 8 + 4 * b);
        fanout.push(count);
        b += 1;
    }
    assert(fanout@ =~= index_view(bytes@).fanout);
    fanout
}

/// Whether the counts never go down.
fn check_fanout(fanout: &Vec<u32>) -> (res: bool)
    requires
        fanout@.len() == 256,
    ensures
        res == fanout_sorted(fanout@),
{
    let mut b: usize = 0;
    while b < 255
        invariant
            b <= 255,
            fanout@.len() == 256,
            forall|j: int| 0 <= j < b ==> #[trigger] fanout@[j] <= fanout@[j + 1],
        decreases 255 - b,
    {
        if fanout[b] > fanout[b + 1] {
            return false;
        }
        b += 1;
    }
    true
}

/// Reads line `i` of an index; `None` where the line has no offset.
fn read_line(bytes: &[u8], i: usize) -> (res: Option<PackIndexEntry>)
    requires
        bytes@.len() >= 1032 + 28 * index_count(bytes@) + 40,
        i < index_count(bytes@),
    ensures
        match offset_at(bytes@, i as int) {
            Some(_) => res matches Some(e) && e@ == entry_at(bytes@, i as int),
            None => res is None,
        },
        hash_at(bytes@, i as int).len() == 20,
{
    let len = bytes.len();
    let count = read_u32(bytes, 1028);
    let n: usize = count as usize;
    let hash = match crate::object::Hash::from(&bytes[1032 + 20 * i..1052 + 20 * i]) {
        Ok(h) => h,
        Err(_) => {
            return None;
        },
    };
    let crc32 = read_u32(bytes, 1032 + 20 * n + 4 * i);
    let word = read_u32(bytes, 1032 + 24 * n + 4 * i);
    let offset: u64 = if word < 0x8000_0000 {
        word as u64
    } else {
        let k: usize = (word - 0x8000_0000) as usize;
        let large: usize = (len - 40 - (1032 + 28 * n)) / 8;
        if k >= large {
            return None;
        }
        let p: usize = 1032 + 28 * n + 8 * k;
        let high = read_u32(bytes, p);
        let low = read_u32(bytes, p + 4);
        (high as u64) * 0x1_0000_0000 + (low as u64)
    };
    Some(PackIndexEntry { hash, crc32, offset })
}

/// No line comes before the line just above it.
pub open spec fn adjacent_sorted(entries: Seq<IndexEntryView>) -> bool {
    forall|i: int| 0 < i < entries.len() ==> lex_le(entries[i - 1].hash, (#[trigger] entries[i]).hash)
}

/// Lines of which none comes before the one just above it are in ascending order.
pub proof fn lemma_adjacent_sorted(entries: Seq<IndexEntryView>, i: int, j: int)
    requires
        adjacent_sorted(entries),
        0 <= i <= j < entries.len(),
    ensures
        lex_le(entries[i].hash, entries[j].hash),
    decreases j - i,
{
    if i == j {
        lemma_lex_irreflexive(entries[i].hash);
    } else {
        lemma_adjacent_sorted(entries, i, j - 1);
        assert(lex_le(entries[j - 1].hash, entries[j].hash));
        lemma_lex_le_trans(entries[i].hash, entries[j - 1].hash, entries[j].hash);
    }
}

/// The number of a line lies between the count for the byte below the
/// first byte of its hash and the count for that byte.
pub open spec fn in_bucket(v: PackIndexView, i: int) -> bool {
    let first = v.entries[i].hash[0] as int;
    (first > 0 ==> v.fanout[first - 1] <= i) && i < v.fanout[first]
}

/// Where the counts never go down, they agree with the hashes exactly
/// where every line lies in the bucket of its first byte.
pub proof fn lemma_buckets(v: PackIndexView)
    requires
        v.fanout.len() == 256,
        fanout_sorted(v.fanout),
    ensures
        fanout_counts(v) <==> forall|i: int| 0 <= i < v.entries.len() ==> #[trigger] in_bucket(v, i),
{
    if forall|i: int| 0 <= i < v.entries.len() ==> #[trigger] in_bucket(v, i) {
        assert forall|i: int, b: int| 0 <= i < v.entries.len() && 0 <= b < 256 implies ((
        #[trigger] v.entries[i]).hash[0] <= b <==> i < #[trigger] v.fanout[b]) by {
            let first = v.entries[i].hash[0] as int;
            assert(in_bucket(v, i));
            if first <= b {
                lemma_fanout_sorted(v.fanout, first, b);
            } else {
                lemma_fanout_sorted(v.fanout, b, first - 1);
            }
        }
    }
    if fanout_counts(v) {
        assert forall|i: int| 0 <= i < v.entries.len() implies #[trigger] in_bucket(v, i) by {
            let e = v.entries[i];
            let first = e.hash[0] as int;
            assert(e.hash[0] <= first <==> i < v.fanout[first]);
            if first > 0 {
                assert(e.hash[0] <= first - 1 <==> i < v.fanout[first - 1]);
            }
        }
    }
}

/// Whether no line comes before the line just above it.
fn check_sorted(entries: &Vec<PackIndexEntry>) -> (res: bool)
    ensures
        res == adjacent_sorted(entry_views(entries@)),
{
    let mut i: usize = 1;
    while i < entries.len()
        invariant
            1 <= i,
            forall|j: int|
                0 < j < i && j < entries@.len() ==> lex_le(
                    entry_views(entries@)[j - 1].hash,
                    (#[trigger] entry_views(entries@)[j]).hash,
                ),
        decreases entries@.len() - i,
    {
        if bytes_before(entries[i].hash.bytes(), entries[i - 1].hash.bytes()) {
            assert(!lex_le(
                entry_views(entries@)[i - 1].hash,
                entry_views(entries@)[i as int].hash,
            ));
            return false;
        }
        i += 1;
    }
    true
}

/// Whether every line lies in the bucket of the first byte of its hash.
fn check_buckets(fanout: &Vec<u32>, entries: &Vec<PackIndexEntry>) -> (res: bool)
    requires
        fanout@.len() == 256,
    ensures
        res == (forall|i: int|
            0 <= i < entries@.len() ==> #[trigger] in_bucket(
                PackIndexView { fanout: fanout@, entries: entry_views(entries@) },
                i,
            )),
{
    let ghost v = PackIndexView { fanout: fanout@, entries: entry_views(entries@) };
    let mut i: usize = 0;
    while i < entries.len()
        invariant
            fanout@.len() == 256,
            v == (PackIndexView { fanout: fanout@, entries: entry_views(entries@) }),
            forall|j: int| 0 <= j < i && j < entries@.len() ==> #[trigger] in_bucket(v, j),
        decreases entries@.len() - i,
    {
        proof {
            entries@[i as int].hash.lemma_len();
        }
        let first: u8 = entries[i].hash.bytes()[0];
        let low: u32 = if first == 0 {
            0
        } else {
            fanout[(first - 1) as usize]
        };
        let high: u32 = fanout[first as usize];
        if (i as u64) < (low as u64) || (i as u64) >= (high as u64) {
            assert(!in_bucket(v, i as int));
            return false;
        }
        assert(in_bucket(v, i as int));
        i += 1;
    }
    true
}

/// Reads the lines of an index; `None` where a line has no offset.
fn read_lines(bytes: &[u8], n: usize) -> (res: Option<Vec<PackIndexEntry>>)
    requires
        bytes@.len() >= 1032 + 28 * index_count(bytes@) + 40,
        n == index_count(bytes@),
    ensures
        tables_fit(bytes@) ==> (res matches Some(lines) && entry_views(lines@) == index_view(
            bytes@,
        ).entries),
        !tables_fit(bytes@) ==> res is None,
        forall|i: int| 0 <= i < n ==> (#[trigger] hash_at(bytes@, i)).len() == 20,
{
    let mut entries: Vec<PackIndexEntry> = Vec::new();
    let mut i: usize = 0;
    while i < n
        invariant
            i <= n,
            n == index_count(bytes@),
            bytes@.len() >= 1032 + 28 * index_count(bytes@) + 40,
            entries@.len() == i,
            forall|j: int| 0 <= j < i ==> (#[trigger] entries@[j])@ == entry_at(bytes@, j),
            forall|j: int| 0 <= j < i ==> (#[trigger] offset_at(bytes@, j)) is Some,
            forall|j: int| 0 <= j < i ==> (#[trigger] hash_at(bytes@, j)).len() == 20,
        decreases n - i,
    {
        match read_line(bytes, i) {
            Some(e) => {
                entries.push(e);
            },
            None => {
                assert(offset_at(bytes@, i as int) is None);
                proof {
                    assert forall|k: int| 0 <= k < n implies (#[trigger] hash_at(bytes@, k)).len()
                        == 20 by {}
                }
                return None;
            },
        }
        i += 1;
    }
    assert(entry_views(entries@) =~= index_view(bytes@).entries);
    Some(entries)
}

/// The number of the first line that holds the hash `h`; the number of
/// lines where none does.
pub open spec fn first_with_hash(entries: Seq<IndexEntryView>, h: Seq<u8>) -> int
    decreases entries.len(),
{
    if entries.len() == 0 {
        0
    } else if entries[0].hash == h {
        0
    } else {
        1 + first_with_hash(entries.drop_first(), h)
    }
}

/// A line with the hash `h` and none such above it is the one that
/// `first_with_hash` gives; so is the end, where no line holds `h`.
pub proof fn lemma_first_with_hash(entries: Seq<IndexEntryView>, h: Seq<u8>, p: int)
    requires
        0 <= p <= entries.len(),
        forall|i: int| 0 <= i < p ==> (#[trigger] entries[i]).hash != h,
        p < entries.len() ==> entries[p].hash == h,
    ensures
        first_with_hash(entries, h) == p,
    decreases p,
{
    if p > 0 {
        let t = entries.drop_first();
        assert(entries[0].hash != h);
        assert forall|i: int| 0 <= i < p - 1 implies (#[trigger] t[i]).hash != h by {
            assert(t[i] == entries[i + 1]);
        }
        lemma_first_with_hash(t, h, p - 1);
    }
}

/// The offset that the index gives for a hash: that of the first line
/// that holds it.
pub open spec fn spec_find(v: PackIndexView, h: Seq<u8>) -> Option<u64> {
    let i = first_with_hash(v.entries, h);
    if i < v.entries.len() {
        Some(v.entries[i].offset)
    } else {
        None
    }
}

/// The index holds the hash `h`.
pub open spec fn index_holds(v: PackIndexView, h: Seq<u8>) -> bool {
    exists|i: int| 0 <= i < v.entries.len() && (#[trigger] v.entries[i]).hash == h
}

/// An index gives an offset for exactly the hashes that it holds.
pub proof fn lemma_find_holds(v: PackIndexView, h: Seq<u8>)
    ensures
        spec_find(v, h) is Some <==> index_holds(v, h),
    decreases v.entries.len(),
{
    let entries = v.entries;
    if entries.len() > 0 {
        let rest = PackIndexView { fanout: v.fanout, entries: entries.drop_first() };
        lemma_find_holds(rest, h);
        if index_holds(v, h) && entries[0].hash != h {
            let i = choose|i: int| 0 <= i < entries.len() && (#[trigger] entries[i]).hash == h;
            assert(rest.entries[i - 1] == entries[i]);
        }
        if index_holds(rest, h) {
            let i = choose|i: int|
                0 <= i < rest.entries.len() && (#[trigger] rest.entries[i]).hash == h;
            assert(entries[i + 1] == rest.entries[i]);
        }
    }
}

/// The lines whose hash starts with the byte `b` or a lower one.
pub open spec fn lines_up_to(v: PackIndexView, b: int) -> Set<int> {
    Set::new(|i: int| 0 <= i < v.entries.len() && v.entries[i].hash[0] <= b)
}

/// Fanout invariant: in a well-formed index the count for a byte is
/// the number of lines whose hash starts with that byte or a lower one,
/// the counts never go down, and the last is the number of lines.
pub proof fn lemma_fanout_counts(v: PackIndexView, b: int)
    requires
        wf_index(v),
        0 <= b < 256,
    ensures
        lines_up_to(v, b).finite(),
        lines_up_to(v, b).len() == v.fanout[b],
        b < 255 ==> v.fanout[b] <= v.fanout[b + 1],
        v.fanout[255] == v.entries.len(),
{
    lemma_fanout_sorted(v.fanout, b, 255);
    let count = v.fanout[b] as int;
    assert(lines_up_to(v, b) =~= vstd::set_lib::set_int_range(0, count)) by {
        assert forall|i: int| lines_up_to(v, b).contains(i) <==> 0 <= i < count by {
            if 0 <= i < v.entries.len() {
                assert(v.entries[i].hash[0] <= b <==> i < v.fanout[b]);
            }
        }
    }
    vstd::set_lib::lemma_int_range(0, count);
}

} // verus!
