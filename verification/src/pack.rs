//! Packs: many objects in one file, some of them written as deltas
//! against others.

use crate::error::Error;
use crate::index::PackIndex;
use crate::index::PackIndexView;
use crate::util::fold_groups;
use crate::util::groups_of;
use crate::util::groups_value;
use crate::util::lemma_groups_of;
use crate::util::leading_run;
use crate::util::run_len;
use vstd::prelude::*;

verus! {

/// The kind of an entry of a pack.
#[derive(Clone, Copy, Debug, PartialEq, Eq, Structural)]
pub enum ObjType {
    Commit,
    Tree,
    Blob,
    Tag,
    OfsDelta,
    RefDelta,
}

/// Where the base of a delta is to be found.
#[derive(Clone, Copy, Debug, PartialEq, Eq)]
pub enum DeltaBase {
    /// In the same pack, so many bytes from the start of the entry: a
    /// negative number.
    Offset(i64),
    /// Wherever the object of this hash is.
    Ref(crate::object::Hash),
}

/// Where the base of a delta is to be found, as mathematics.
pub enum DeltaBaseView {
    Offset(i64),
    Ref(Seq<u8>),
}

impl View for DeltaBase {
    type V = DeltaBaseView;

    open spec fn view(&self) -> DeltaBaseView {
        match self {
            DeltaBase::Offset(rel) => DeltaBaseView::Offset(*rel),
            DeltaBase::Ref(hash) => DeltaBaseView::Ref(hash@),
        }
    }
}

/// What stands before the compressed bytes of an entry.
#[derive(Clone, Copy, Debug, PartialEq, Eq)]
pub struct PackEntryHeader {
    pub kind: ObjType,
    pub inflated_size: u64,
    pub base: Option<DeltaBase>,
}

/// The header of an entry as mathematics.
pub struct EntryHeaderView {
    pub kind: ObjType,
    pub inflated_size: u64,
    pub base: Option<DeltaBaseView>,
}

impl View for PackEntryHeader {
    type V = EntryHeaderView;

    open spec fn view(&self) -> EntryHeaderView {
        EntryHeaderView {
            kind: self.kind,
            inflated_size: self.inflated_size,
            base: match self.base {
                Some(b) => Some(b@),
                None => None,
            },
        }
    }
}

/// The kind of entry that a type code names.
pub open spec fn obj_type_of(code: int) -> Option<ObjType> {
    if code == 1 {
        Some(ObjType::Commit)
    } else if code == 2 {
        Some(ObjType::Tree)
    } else if code == 3 {
        Some(ObjType::Blob)
    } else if code == 4 {
        Some(ObjType::Tag)
    } else if code == 6 {
        Some(ObjType::OfsDelta)
    } else if code == 7 {
        Some(ObjType::RefDelta)
    } else {
        None
    }
}

/// The type code of a kind of entry.
pub open spec fn code_of(kind: ObjType) -> int {
    match kind {
        ObjType::Commit => 1,
        ObjType::Tree => 2,
        ObjType::Blob => 3,
        ObjType::Tag => 4,
        ObjType::OfsDelta => 6,
        ObjType::RefDelta => 7,
    }
}

/// The size that the header at the start of `s` declares: the low four
/// bits of the first byte, and above them 7 bits of each byte that
/// follows while the high bit of the byte before is set.
pub open spec fn header_size(s: Seq<u8>) -> nat {
    (s[0] % 16) as nat + 16 * groups_value(s.subrange(1, run_len(s) + 1))
}

/// What the type and size at the start of an entry denote: the kind
/// that bits 4 to 6 of the first byte name, the size, and the number of
/// bytes taken.
pub open spec fn spec_entry_header(s: Seq<u8>) -> Result<(ObjType, u64, int), Error> {
    if s.len() == 0 {
        Err(Error::MalformedPack)
    } else {
        match obj_type_of((s[0] as int / 16) % 8) {
            Some(kind) => if run_len(s) >= s.len() || header_size(s) > u64::MAX {
                Err(Error::MalformedPack)
            } else {
                Ok((kind, header_size(s) as u64, run_len(s) + 1))
            },
            None => Err(Error::InvalidObjectType),
        }
    }
}

/// Reads the type and the size that an entry starts with; gives the
/// number of bytes taken too.
pub fn parse_pack_obj_header(v: &[u8]) -> (res: Result<(ObjType, u64, usize), Error>)
    ensures
        match spec_entry_header(v@) {
            Ok((kind, size, n)) => res == Ok::<(ObjType, u64, usize), Error>(
                (kind, size, n as usize),
            ) && 0 < n <= v@.len(),
            Err(e) => res == Err::<(ObjType, u64, usize), Error>(e),
        },
{
    if v.len() == 0 {
        return Err(Error::MalformedPack);
    }
    let first: u8 = v[0];
    let code: u8 = (first / 16) % 8;
    let kind = if code == 1 {
        ObjType::Commit
    } else if code == 2 {
        ObjType::Tree
    } else if code == 3 {
        ObjType::Blob
    } else if code == 4 {
        ObjType::Tag
    } else if code == 6 {
        ObjType::OfsDelta
    } else if code == 7 {
        ObjType::RefDelta
    } else {
        return Err(Error::InvalidObjectType);
    };
    let n = leading_run(v);
    if n >= v.len() {
        return Err(Error::MalformedPack);
    }
    let low: u64 = (first % 16) as u64;
    match fold_groups(&v[1..n + 1], (u64::MAX - low) / 16) {
        Some(high) => Ok((kind, low + 16 * high, n + 1)),
        None => Err(Error::MalformedPack),
    }
}

/// The number that the bytes of `s` write as the distance to a base:
/// 7 bits to a byte, highest first, and one more for every byte but the
/// last.
pub open spec fn ofs_value(s: Seq<u8>) -> nat
    decreases s.len(),
{
    if s.len() == 0 {
        0
    } else if s.len() == 1 {
        (s[0] % 128) as nat
    } else {
        (ofs_value(s.drop_last()) + 1) * 128 + (s.last() % 128) as nat
    }
}

/// The distance to a base that `s` starts with, and the number of
/// bytes it takes. `None` where it does not end within `s`, or is above
/// `limit`.
pub open spec fn spec_ofs(s: Seq<u8>, limit: nat) -> Option<(nat, int)> {
    let n = run_len(s);
    if n >= s.len() || ofs_value(s.take(n + 1)) > limit {
        None
    } else {
        Some((ofs_value(s.take(n + 1)), n + 1))
    }
}

/// A distance is at least what any shorter start of its bytes writes.
pub proof fn lemma_ofs_value_prefix(s: Seq<u8>, k: int)
    requires
        0 <= k <= s.len(),
    ensures
        ofs_value(s.take(k)) <= ofs_value(s),
    decreases s.len() - k,
{
    if k < s.len() {
        lemma_ofs_value_prefix(s, k + 1);
        let t = s.take(k + 1);
        assert(t.drop_last() =~= s.take(k));
        if k == 0 {
            assert(s.take(0).len() == 0);
        }
    } else {
        assert(s.take(k) =~= s);
    }
}

/// Reads the distance to a base that `v` starts with, where it is no
/// more than `limit`; gives the number of bytes taken too.
pub fn read_ofs(v: &[u8], limit: u64) -> (res: Option<(u64, usize)>)
    ensures
        match spec_ofs(v@, limit as nat) {
            Some((value, n)) => res == Some((value as u64, n as usize)) && 0 < n <= v@.len(),
            None => res is None,
        },
{
    let n = leading_run(v);
    if n >= v.len() {
        return None;
    }
    let ghost whole = v@.take(n + 1);
    let mut acc: u64 = (v[0] % 128) as u64;
    if acc > limit {
        proof {
            lemma_ofs_value_prefix(whole, 1);
            assert(whole.take(1) =~= v@.take(1));
        }
        return None;
    }
    let mut i: usize = 1;
    while i <= n
        invariant
            1 <= i <= n + 1,
            n < v@.len(),
            n == run_len(v@),
            whole == v@.take(n + 1),
            acc == ofs_value(v@.take(i as int)),
            acc <= limit,
        decreases n + 1 - i,
    {
        let g: u64 = (v[i] % 128) as u64;
        proof {
            let t = v@.take(i + 1);
            assert(t.drop_last() =~= v@.take(i as int));
            assert(t.last() == v@[i as int]);
            lemma_ofs_value_prefix(whole, i + 1);
            assert(whole.take(i + 1) =~= t);
        }
        if acc >= limit / 128 {
            // (acc + 1) * 128 is above the limit
            return None;
        }
        let next: u64 = (acc + 1) * 128;
        if g > limit - next {
            return None;
        }
        acc = next + g;
        i += 1;
    }
    Some((acc, n + 1))
}

/// The greatest distance to a base that an entry at `offset` can name.
pub open spec fn ofs_limit(offset: int) -> nat {
    if offset <= i64::MAX {
        offset as nat
    } else {
        i64::MAX as nat
    }
}

/// What stands before the compressed bytes of the entry at `offset`,
/// and where those bytes start. After the type and size, a delta names
/// its base: by the distance back from `offset`, which is at least 1
/// and at most `offset`, or by 20 bytes of hash.
pub open spec fn spec_read_entry(pack: Seq<u8>, offset: int) -> Result<(EntryHeaderView, int), Error> {
    if offset >= pack.len() {
        Err(Error::MalformedPack)
    } else {
        match spec_entry_header(pack.skip(offset)) {
            Ok((kind, inflated_size, n)) => match kind {
                ObjType::OfsDelta => match spec_ofs(pack.skip(offset + n), ofs_limit(offset)) {
                    Some((distance, m)) => if distance == 0 {
                        Err(Error::MalformedPack)
                    } else {
                        Ok(
                            (
                                EntryHeaderView {
                                    kind,
                                    inflated_size,
                                    base: Some(DeltaBaseView::Offset((0 - distance) as i64)),
                                },
                                offset + n + m,
                            ),
                        )
                    },
                    None => Err(Error::MalformedPack),
                },
                ObjType::RefDelta => if offset + n + 20 > pack.len() {
                    Err(Error::MalformedPack)
                } else {
                    Ok(
                        (
                            EntryHeaderView {
                                kind,
                                inflated_size,
                                base: Some(
                                    DeltaBaseView::Ref(pack.subrange(offset + n, offset + n + 20)),
                                ),
                            },
                            offset + n + 20,
                        ),
                    )
                },
                _ => Ok((EntryHeaderView { kind, inflated_size, base: None }, offset + n)),
            },
            Err(e) => Err(e),
        }
    }
}

/// Reads what stands before the compressed bytes of the entry at
/// `offset`; gives the place where those bytes start too.
pub fn read_entry(pack: &[u8], offset: usize) -> (res: Result<(PackEntryHeader, usize), Error>)
    ensures
        match spec_read_entry(pack@, offset as int) {
            Ok((header, start)) => res matches Ok((h, s)) && h@ == header && s == start && offset
                < s <= pack@.len(),
            Err(e) => res matches Err(f) && f == e,
        },
{
    if offset >= pack.len() {
        return Err(Error::MalformedPack);
    }
    let entry = &pack[offset..pack.len()];
    let (kind, inflated_size, n) = match parse_pack_obj_header(entry) {
        Ok(x) => x,
        Err(e) => {
            return Err(e);
        },
    };
    let after = &entry[n..entry.len()];
    assert(after@ =~= pack@.skip(offset + n));
    match kind {
        ObjType::OfsDelta => {
            let limit: u64 = if offset as u64 <= i64::MAX as u64 {
                offset as u64
            } else {
                i64::MAX as u64
            };
            match read_ofs(after, limit) {
                Some((distance, m)) => {
                    if distance == 0 {
                        return Err(Error::MalformedPack);
                    }
                    let rel: i64 = 0 - (distance as i64);
                    Ok(
                        (
                            PackEntryHeader {
                                kind,
                                inflated_size,
                                base: Some(DeltaBase::Offset(rel)),
                            },
                            offset + n + m,
                        ),
                    )
                },
                None => Err(Error::MalformedPack),
            }
        },
        ObjType::RefDelta => {
            if after.len() < 20 {
                return Err(Error::MalformedPack);
            }
            let hash = match crate::object::Hash::from(&after[0..20]) {
                Ok(h) => h,
                Err(e) => {
                    return Err(e);
                },
            };
            assert(after@.subrange(0, 20) =~= pack@.subrange(offset + n, offset + n + 20));
            Ok(
                (
                    PackEntryHeader { kind, inflated_size, base: Some(DeltaBase::Ref(hash)) },
                    offset + n + 20,
                ),
            )
        },
        _ => Ok((PackEntryHeader { kind, inflated_size, base: None }, offset + n)),
    }
}

/// The four bytes that a pack starts with: `PACK`.
pub open spec fn pack_magic() -> Seq<u8> {
    seq!['P' as u8, 'A' as u8, 'C' as u8, 'K' as u8]
}

/// The greatest length of a pack: 2 GiB.
pub const MAX_PACK_LEN: usize = 0x8000_0000;

/// The number of deltas that may stand between an entry and a whole
/// object, unless another limit is set.
pub const DEFAULT_MAX_DEPTH: usize = 50;

/// What the first twelve bytes of a pack denote, for an index of
/// `count` lines: the magic, version 2, and that same count.
pub open spec fn spec_pack_header(pack: Seq<u8>, count: int) -> Result<u32, Error> {
    if pack.len() < 12 || pack.take(4) != pack_magic() {
        Err(Error::MalformedPack)
    } else if crate::index::u32_at(pack, 4) != 2 {
        Err(Error::UnsupportedVersion)
    } else if crate::index::u32_at(pack, 8) != count {
        Err(Error::ObjectCountMismatch)
    } else {
        Ok(count as u32)
    }
}

/// Checks the first twelve bytes of a pack against the number of lines
/// of its index; gives the number of objects.
pub fn parse_pack_header(pack: &[u8], count: u32) -> (res: Result<u32, Error>)
    ensures
        res == spec_pack_header(pack@, count as int),
{
    let magic: [u8; 4] = ['P' as u8, 'A' as u8, 'C' as u8, 'K' as u8];
    assert(magic@ =~= pack_magic());
    if pack.len() < 12 || !crate::text::starts_with(pack, magic.as_slice()) {
        return Err(Error::MalformedPack);
    }
    if crate::index::read_u32(pack, 4) != 2 {
        return Err(Error::UnsupportedVersion);
    }
    if crate::index::read_u32(pack, 8) != count {
        return Err(Error::ObjectCountMismatch);
    }
    Ok(count)
}

/// A pack with its index.
#[derive(Debug, PartialEq, Eq)]
pub struct Pack {
    index: PackIndex,
    pack: Vec<u8>,
    max_depth: usize,
}

/// A pack as mathematics: the decoded index, the bytes of the pack, and
/// the limit on chains of deltas.
pub struct PackView {
    pub index: PackIndexView,
    pub data: Seq<u8>,
    pub max_depth: nat,
}

impl View for Pack {
    type V = PackView;

    closed spec fn view(&self) -> PackView {
        PackView { index: self.index@, data: self.pack@, max_depth: self.max_depth as nat }
    }
}

/// What holds of every pack: a well-formed index of as many lines as
/// the pack declares objects, and no more than 2 GiB of bytes.
pub open spec fn wf_pack(p: PackView) -> bool {
    &&& crate::index::wf_index(p.index)
    &&& p.data.len() <= MAX_PACK_LEN
    &&& spec_pack_header(p.data, p.index.entries.len() as int) is Ok
}

/// The pack that the bytes of an index and of a pack make.
pub open spec fn spec_new_pack(index: Seq<u8>, pack: Seq<u8>) -> Result<PackView, Error> {
    match crate::index::spec_parse_index(index) {
        Ok(decoded) => if pack.len() > MAX_PACK_LEN {
            Err(Error::PackTooLarge)
        } else {
            match spec_pack_header(pack, decoded.entries.len() as int) {
                Ok(_) => Ok(
                    PackView { index: decoded, data: pack, max_depth: DEFAULT_MAX_DEPTH as nat },
                ),
                Err(e) => Err(e),
            }
        },
        Err(e) => Err(e),
    }
}

/// Decodes an index and checks a pack against it: the pack is no more
/// than 2 GiB, and starts as a pack of as many objects as the index has
/// lines.
pub fn check_pack(index: &[u8], pack: &[u8]) -> (res: Result<PackIndex, Error>)
    ensures
        match spec_new_pack(index@, pack@) {
            Ok(p) => res matches Ok(decoded) && decoded@ == p.index && wf_pack(p),
            Err(e) => res matches Err(f) && f == e,
        },
{
    let decoded = match PackIndex::parse(index) {
        Ok(i) => i,
        Err(e) => {
            return Err(e);
        },
    };
    if pack.len() > MAX_PACK_LEN {
        return Err(Error::PackTooLarge);
    }
    match parse_pack_header(pack, decoded.object_count()) {
        Ok(_) => Ok(decoded),
        Err(e) => Err(e),
    }
}

impl Pack {
    #[verifier::type_invariant]
    spec fn well_formed(self) -> bool {
        wf_pack(self@)
    }

    /// Puts an index and a pack together: decodes the index and checks
    /// the pack against it.
    pub fn new(index: Vec<u8>, pack: Vec<u8>) -> (res: Result<Pack, Error>)
        ensures
            crate::object::agrees(res, spec_new_pack(index@, pack@)),
            res matches Ok(p) ==> wf_pack(p@),
    {
        match check_pack(index.as_slice(), pack.as_slice()) {
            Ok(decoded) => Ok(Pack { index: decoded, pack, max_depth: DEFAULT_MAX_DEPTH }),
            Err(e) => Err(e),
        }
    }

    /// The same pack with another limit on chains of deltas.
    pub fn with_max_depth(self, max_depth: usize) -> (res: Pack)
        ensures
            res@ == (PackView { max_depth: max_depth as nat, ..self@ }),
            wf_pack(res@),
    {
        proof {
            use_type_invariant(&self);
        }
        Pack { index: self.index, pack: self.pack, max_depth }
    }

    /// The decoded index.
    pub fn index(&self) -> (res: &PackIndex)
        ensures
            res@ == self@.index,
    {
        &self.index
    }

    /// The bytes of the pack.
    pub fn bytes(&self) -> (res: &[u8])
        ensures
            res@ == self@.data,
            wf_pack(self@),
    {
        proof {
            use_type_invariant(self);
        }
        self.pack.as_slice()
    }

    /// The limit on chains of deltas.
    pub fn max_depth(&self) -> (res: usize)
        ensures
            res == self@.max_depth,
    {
        self.max_depth
    }

    /// The count of the fanout table for the byte `i`: the number of
    /// objects whose hash starts with `i` or a lower byte.
    pub fn get_fanout_i(&self, i: u8) -> (res: u32)
        ensures
            res == self@.index.fanout[i as int],
            wf_pack(self@),
    {
        proof {
            use_type_invariant(self);
        }
        self.index.fanout(i)
    }

    /// The number of objects.
    pub fn get_obj_count(&self) -> (res: u32)
        ensures
            res == self@.index.entries.len(),
            res == self@.index.fanout[255],
            wf_pack(self@),
    {
        proof {
            use_type_invariant(self);
        }
        self.index.object_count()
    }

    /// Where in the pack the object of this hash starts.
    pub fn get_obj_offset(&self, hash: &crate::object::Hash) -> (res: Option<u64>)
        ensures
            res == crate::index::spec_find(self@.index, hash@),
            wf_pack(self@),
    {
        proof {
            use_type_invariant(self);
        }
        self.index.find(hash)
    }

    /// Gets the object under `hash` from this pack. A delta whose base
    /// is named by hash finds it in this pack or not at all.
    pub fn get_obj(&self, hash: crate::object::Hash) -> (res: Result<
        Option<crate::object::Object>,
        Error,
    >)
        ensures
            agrees_some(res, spec_get_object(Seq::empty(), seq![self@], hash@)),
            !crate::index::index_holds(self@.index, hash@) ==> res matches Ok(None),
    {
        let loose: Vec<crate::repo::LooseObject> = Vec::new();
        let packs = single(self);
        proof {
            assert(crate::repo::loose_views(loose@) =~= Seq::empty());
            assert(pack_views(packs@) =~= seq![self@]);
            if !crate::index::index_holds(self@.index, hash@) {
                lemma_missing_hash(Seq::empty(), seq![self@], hash@);
            }
        }
        get_object(loose.as_slice(), packs, &hash)
    }

    /// Reads the object of the entry at `offset`.
    pub fn object_at(&self, offset: u64) -> (res: Result<crate::object::Object, Error>)
        ensures
            crate::object::agrees(res, spec_object_at(self@, offset)),
    {
        let loose: Vec<crate::repo::LooseObject> = Vec::new();
        let packs = single(self);
        proof {
            reveal(spec_object_at);
            assert(crate::repo::loose_views(loose@) =~= Seq::empty());
            assert(pack_views(packs@) =~= seq![self@]);
        }
        let raw = match resolve_at(loose.as_slice(), packs, 0, offset, self.max_depth) {
            Ok(r) => r,
            Err(e) => {
                return Err(e);
            },
        };
        crate::object::parse_body(raw.typp, raw.body.as_slice())
    }

    /// The offsets of all lines of the index, in ascending order.
    pub fn sorted_offsets(&self) -> (res: Vec<u64>)
        ensures
            res@ == sort_offsets(index_offsets(self@.index)),
    {
        let count = self.index.object_count() as usize;
        let ghost all = index_offsets(self@.index);
        let mut out: Vec<u64> = Vec::new();
        let mut i: usize = 0;
        assert(all.take(0) =~= Seq::<u64>::empty());
        while i < count
            invariant
                i <= count,
                count == self@.index.entries.len(),
                all == index_offsets(self@.index),
                out@ == sort_offsets(all.take(i as int)),
            decreases count - i,
        {
            match self.index.entry(i) {
                Some(e) => {
                    proof {
                        assert(all.take(i + 1).drop_last() =~= all.take(i as int));
                        assert(all.take(i + 1).last() == e.offset);
                    }
                    insert_offset(&mut out, e.offset);
                },
                None => {},
            }
            i += 1;
        }
        assert(all.take(count as int) =~= all);
        out
    }

    /// Reads every object of the pack, in the order in which the
    /// entries stand in it.
    pub fn objects(&self) -> (res: Result<Vec<crate::object::Object>, Error>)
        ensures
            match spec_objects_at(self@, sort_offsets(index_offsets(self@.index))) {
                Ok(objs) => res matches Ok(v) && object_views(v@) == objs,
                Err(e) => res matches Err(f) && f == e,
            },
    {
        let offsets = self.sorted_offsets();
        let mut out: Vec<crate::object::Object> = Vec::new();
        let mut i: usize = 0;
        proof {
            assert(offsets@.skip(0) =~= offsets@);
            assert(object_views(out@) =~= Seq::empty());
            assert(Seq::<crate::format::ObjectView>::empty() + Seq::<
                crate::format::ObjectView,
            >::empty() =~= Seq::empty());
        }
        while i < offsets.len()
            invariant
                i <= offsets@.len(),
                offsets@ == sort_offsets(index_offsets(self@.index)),
                spec_objects_at(self@, offsets@) == prepend_objects(
                    object_views(out@),
                    spec_objects_at(self@, offsets@.skip(i as int)),
                ),
            decreases offsets@.len() - i,
        {
            proof {
                assert(offsets@.skip(i as int).drop_first() =~= offsets@.skip(i + 1));
                assert(offsets@.skip(i as int)[0] == offsets@[i as int]);
            }
            let obj = match self.object_at(offsets[i]) {
                Ok(o) => o,
                Err(e) => {
                    return Err(e);
                },
            };
            proof {
                let before = object_views(out@);
                assert(object_views(out@.push(obj)) =~= before + seq![obj@]);
                if let Ok(more) = spec_objects_at(self@, offsets@.skip(i + 1)) {
                    assert((before + seq![obj@]) + more =~= before + (seq![obj@] + more));
                }
            }
            out.push(obj);
            i += 1;
        }
        proof {
            assert(offsets@.skip(i as int) =~= Seq::<u64>::empty());
            assert(object_views(out@) + Seq::<crate::format::ObjectView>::empty() =~= object_views(
                out@,
            ));
        }
        Ok(out)
    }
}

/// The kind and the body of an object, not yet read as an object.
#[derive(Debug, PartialEq, Eq)]
pub struct RawObject {
    pub typp: crate::object::Type,
    pub body: Vec<u8>,
}

/// A kind and a body as mathematics.
pub struct RawView {
    pub typp: crate::object::Type,
    pub body: Seq<u8>,
}

impl View for RawObject {
    type V = RawView;

    open spec fn view(&self) -> RawView {
        RawView { typp: self.typp, body: self.body@ }
    }
}

/// The views of a run of packs.
pub open spec fn pack_views(s: Seq<Pack>) -> Seq<PackView> {
    Seq::new(s.len(), |i: int| s[i]@)
}

/// The first pack whose index holds the hash `h`, and the offset that
/// the index gives.
pub open spec fn pack_lookup(packs: Seq<PackView>, h: Seq<u8>) -> Option<(int, u64)>
    decreases packs.len(),
{
    if packs.len() == 0 {
        None
    } else {
        match crate::index::spec_find(packs[0].index, h) {
            Some(offset) => Some((0, offset)),
            None => match pack_lookup(packs.drop_first(), h) {
                Some((p, offset)) => Some((p + 1, offset)),
                None => None,
            },
        }
    }
}

/// A pack that gives an offset for `h`, with none such before it, is
/// the one that `pack_lookup` gives; where no pack does, it gives none.
pub proof fn lemma_pack_lookup(packs: Seq<PackView>, h: Seq<u8>, p: int)
    requires
        0 <= p <= packs.len(),
        forall|i: int| 0 <= i < p ==> crate::index::spec_find((#[trigger] packs[i]).index, h) is None,
        p < packs.len() ==> crate::index::spec_find(packs[p].index, h) is Some,
    ensures
        p < packs.len() ==> pack_lookup(packs, h) == Some(
            (p, crate::index::spec_find(packs[p].index, h)->0),
        ),
        p == packs.len() ==> pack_lookup(packs, h) is None,
    decreases p,
{
    if p > 0 {
        let t = packs.drop_first();
        assert(crate::index::spec_find(packs[0].index, h) is None);
        assert forall|i: int| 0 <= i < p - 1 implies crate::index::spec_find(
            (#[trigger] t[i]).index,
            h,
        ) is None by {
            assert(t[i] == packs[i + 1]);
        }
        if p < packs.len() {
            assert(t[p - 1] == packs[p]);
        }
        lemma_pack_lookup(t, h, p - 1);
    }
}

/// The kind of object that a kind of entry holds outright.
pub open spec fn plain_type(kind: ObjType) -> Option<crate::object::Type> {
    match kind {
        ObjType::Commit => Some(crate::object::Type::Commit),
        ObjType::Tree => Some(crate::object::Type::Tree),
        ObjType::Blob => Some(crate::object::Type::Blob),
        _ => None,
    }
}

/// The bytes that the compressed stream at `start` inflates to, which
/// must be as many as the entry declares.
pub open spec fn spec_payload(pack: Seq<u8>, start: int, size: u64) -> Result<Seq<u8>, Error> {
    match crate::util::zlib_inflated(pack.skip(start)) {
        Some(raw) => if raw.len() == size {
            Ok(raw)
        } else {
            Err(Error::SizeMismatch)
        },
        None => Err(Error::CorruptStream),
    }
}

/// The base that a lookup by hash gave, which must be there.
pub open spec fn found_base(base: Result<Option<RawView>, Error>) -> Result<RawView, Error> {
    match base {
        Ok(Some(raw)) => Ok(raw),
        Ok(None) => Err(Error::MalformedPack),
        Err(e) => Err(e),
    }
}

/// What a delta makes of its base: the base keeps its kind.
pub open spec fn patched(
    base: Result<RawView, Error>,
    delta: Result<Seq<u8>, Error>,
) -> Result<RawView, Error> {
    match base {
        Ok(raw) => match delta {
            Ok(bytes) => match crate::delta::spec_apply_delta(raw.body, bytes) {
                Ok(body) => Ok(RawView { typp: raw.typp, body }),
                Err(e) => Err(e),
            },
            Err(e) => Err(e),
        },
        Err(e) => Err(e),
    }
}

/// What an entry that holds an object outright gives. A tag is no
/// object that this store reads.
pub open spec fn whole(kind: ObjType, payload: Result<Seq<u8>, Error>) -> Result<RawView, Error> {
    match payload {
        Ok(body) => match plain_type(kind) {
            Some(typp) => Ok(RawView { typp, body }),
            None => Err(Error::UnrecognizedHeader),
        },
        Err(e) => Err(e),
    }
}

/// The kind and body of the entry at `offset` of pack `p`. A delta is
/// applied to its base, which is resolved first, with one step less of
/// `depth` left; at depth 0 a delta is a chain too deep.
pub open spec fn spec_resolve_at(
    loose: Seq<crate::repo::LooseView>,
    packs: Seq<PackView>,
    p: int,
    offset: int,
    depth: nat,
) -> Result<RawView, Error>
    decreases depth, 0nat,
{
    match spec_read_entry(packs[p].data, offset) {
        Ok((header, start)) => match header.base {
            Some(base) => if depth == 0 {
                Err(Error::DeltaChainTooDeep)
            } else {
                patched(
                    match base {
                        DeltaBaseView::Offset(rel) => spec_resolve_at(
                            loose,
                            packs,
                            p,
                            offset + rel,
                            (depth - 1) as nat,
                        ),
                        DeltaBaseView::Ref(hash) => found_base(
                            spec_resolve_hash(loose, packs, hash, (depth - 1) as nat),
                        ),
                    },
                    spec_payload(packs[p].data, start, header.inflated_size),
                )
            },
            None => whole(header.kind, spec_payload(packs[p].data, start, header.inflated_size)),
        },
        Err(e) => Err(e),
    }
}

/// The kind and body of the object under the hash `h`: the loose one
/// where there is one, else that of the first pack whose index holds
/// `h`; nothing where neither holds it.
pub open spec fn spec_resolve_hash(
    loose: Seq<crate::repo::LooseView>,
    packs: Seq<PackView>,
    h: Seq<u8>,
    depth: nat,
) -> Result<Option<RawView>, Error>
    decreases depth, 1nat,
{
    match crate::repo::loose_lookup(loose, h) {
        Some(obj) => Ok(
            Some(
                RawView {
                    typp: crate::format::kind_of(obj),
                    body: crate::format::body_of(obj),
                },
            ),
        ),
        None => match pack_lookup(packs, h) {
            Some((p, offset)) => match spec_resolve_at(loose, packs, p, offset as int, depth) {
                Ok(raw) => Ok(Some(raw)),
                Err(e) => Err(e),
            },
            None => Ok(None),
        },
    }
}

/// A result that holds the optional value, or reports the failure,
/// that `expected` names.
pub open spec fn agrees_some<T: View>(
    res: Result<Option<T>, Error>,
    expected: Result<Option<T::V>, Error>,
) -> bool {
    match expected {
        Ok(Some(v)) => res matches Ok(Some(t)) && t@ == v,
        Ok(None) => res matches Ok(None),
        Err(e) => res matches Err(f) && f == e,
    }
}

/// Finds the first pack whose index holds `hash`; gives its place and
/// the offset of the object.
pub fn find_pack(packs: &[Pack], hash: &crate::object::Hash) -> (res: Option<(usize, u64)>)
    ensures
        res matches Some((p, offset)) ==> p < packs@.len() && pack_lookup(
            pack_views(packs@),
            hash@,
        ) == Some((p as int, offset)),
        res is None ==> pack_lookup(pack_views(packs@), hash@) is None,
{
    let mut i: usize = 0;
    while i < packs.len()
        invariant
            i <= packs@.len(),
            forall|j: int|
                0 <= j < i ==> crate::index::spec_find(
                    (#[trigger] pack_views(packs@)[j]).index,
                    hash@,
                ) is None,
        decreases packs@.len() - i,
    {
        match packs[i].get_obj_offset(hash) {
            Some(offset) => {
                proof {
                    lemma_pack_lookup(pack_views(packs@), hash@, i as int);
                }
                return Some((i, offset));
            },
            None => {},
        }
        i += 1;
    }
    proof {
        lemma_pack_lookup(pack_views(packs@), hash@, i as int);
    }
    None
}

/// Inflates the compressed stream at `start`, and checks its length
/// against what the entry declares.
pub fn read_payload(pack: &[u8], start: usize, size: u64) -> (res: Result<Vec<u8>, Error>)
    requires
        start <= pack@.len(),
    ensures
        crate::object::agrees(res, spec_payload(pack@, start as int, size)),
{
    let raw = match crate::util::decode(&pack[start..pack.len()]) {
        Ok(v) => v,
        Err(e) => {
            return Err(e);
        },
    };
    if raw.len() as u64 != size {
        return Err(Error::SizeMismatch);
    }
    Ok(raw)
}

/// Applies a delta to its base; the result is of the kind of the base.
pub fn patch(base: RawObject, delta: &[u8]) -> (res: Result<RawObject, Error>)
    ensures
        crate::object::agrees(res, patched(Ok(base@), Ok(delta@))),
{
    match crate::delta::apply_delta(base.body.as_slice(), delta) {
        Ok(body) => Ok(RawObject { typp: base.typp, body }),
        Err(e) => Err(e),
    }
}

/// Resolves the entry at `offset` of pack `p` to a kind and a body.
pub fn resolve_at(
    loose: &[crate::repo::LooseObject],
    packs: &[Pack],
    p: usize,
    offset: u64,
    depth: usize,
) -> (res: Result<RawObject, Error>)
    requires
        p < packs@.len(),
    ensures
        crate::object::agrees(
            res,
            spec_resolve_at(
                crate::repo::loose_views(loose@),
                pack_views(packs@),
                p as int,
                offset as int,
                depth as nat,
            ),
        ),
    decreases depth, 0nat,
{
    let data = packs[p].bytes();
    assert(data@ == pack_views(packs@)[p as int].data);
    if offset >= data.len() as u64 {
        return Err(Error::MalformedPack);
    }
    let at: usize = offset as usize;
    let (header, start) = match read_entry(data, at) {
        Ok(x) => x,
        Err(e) => {
            return Err(e);
        },
    };
    match header.base {
        Some(base) => {
            if depth == 0 {
                return Err(Error::DeltaChainTooDeep);
            }
            let resolved = match base {
                DeltaBase::Offset(rel) => {
                    let back: u64 = (at as i64 + rel) as u64;
                    resolve_at(loose, packs, p, back, depth - 1)
                },
                DeltaBase::Ref(hash) => {
                    match resolve_hash(loose, packs, &hash, depth - 1) {
                        Ok(Some(raw)) => Ok(raw),
                        Ok(None) => Err(Error::MalformedPack),
                        Err(e) => Err(e),
                    }
                },
            };
            let raw = match resolved {
                Ok(r) => r,
                Err(e) => {
                    return Err(e);
                },
            };
            let delta = match read_payload(data, start, header.inflated_size) {
                Ok(d) => d,
                Err(e) => {
                    return Err(e);
                },
            };
            patch(raw, delta.as_slice())
        },
        None => {
            let body = match read_payload(data, start, header.inflated_size) {
                Ok(b) => b,
                Err(e) => {
                    return Err(e);
                },
            };
            match header.kind {
                ObjType::Commit => Ok(RawObject { typp: crate::object::Type::Commit, body }),
                ObjType::Tree => Ok(RawObject { typp: crate::object::Type::Tree, body }),
                ObjType::Blob => Ok(RawObject { typp: crate::object::Type::Blob, body }),
                _ => Err(Error::UnrecognizedHeader),
            }
        },
    }
}

/// Resolves a hash to a kind and a body: the loose object where there
/// is one, else the entry of the first pack whose index holds the hash.
pub fn resolve_hash(
    loose: &[crate::repo::LooseObject],
    packs: &[Pack],
    hash: &crate::object::Hash,
    depth: usize,
) -> (res: Result<Option<RawObject>, Error>)
    ensures
        agrees_some(
            res,
            spec_resolve_hash(
                crate::repo::loose_views(loose@),
                pack_views(packs@),
                hash@,
                depth as nat,
            ),
        ),
    decreases depth, 1nat,
{
    let i = crate::repo::find_loose(loose, hash);
    if i < loose.len() {
        let obj = &loose[i].obj;
        assert(crate::repo::loose_views(loose@)[i as int].obj == obj@);
        return Ok(Some(RawObject { typp: obj.kind(), body: obj.body() }));
    }
    let ghost views = crate::repo::loose_views(loose@);
    assert(crate::repo::loose_lookup(views, hash@) is None);
    match find_pack(packs, hash) {
        Some((p, offset)) => {
            assert(pack_lookup(pack_views(packs@), hash@) == Some((p as int, offset)));
            match resolve_at(loose, packs, p, offset, depth) {
                Ok(raw) => Ok(Some(raw)),
                Err(e) => Err(e),
            }
        },
        None => Ok(None),
    }
}

/// The object that a kind and a body make, where there are any.
pub open spec fn read_raw(raw: Result<RawView, Error>) -> Result<
    Option<crate::format::ObjectView>,
    Error,
> {
    match raw {
        Ok(r) => match crate::format::spec_parse_body(r.typp, r.body) {
            Ok(obj) => Ok(Some(obj)),
            Err(e) => Err(e),
        },
        Err(e) => Err(e),
    }
}

/// The object under the hash `h`: the loose one where there is one,
/// else the one that the first pack whose index holds `h` gives, with
/// chains of deltas no longer than that pack allows; nothing where
/// neither holds `h`.
pub open spec fn spec_get_object(
    loose: Seq<crate::repo::LooseView>,
    packs: Seq<PackView>,
    h: Seq<u8>,
) -> Result<Option<crate::format::ObjectView>, Error> {
    match crate::repo::loose_lookup(loose, h) {
        Some(obj) => Ok(Some(obj)),
        None => match pack_lookup(packs, h) {
            Some((p, offset)) => read_raw(
                spec_resolve_at(loose, packs, p, offset as int, packs[p].max_depth),
            ),
            None => Ok(None),
        },
    }
}

/// The hash `h` is under no loose object and in no index.
pub open spec fn nowhere(
    loose: Seq<crate::repo::LooseView>,
    packs: Seq<PackView>,
    h: Seq<u8>,
) -> bool {
    &&& forall|i: int| 0 <= i < loose.len() ==> (#[trigger] loose[i]).hash != h
    &&& forall|p: int|
        0 <= p < packs.len() ==> !crate::index::index_holds((#[trigger] packs[p]).index, h)
}

/// Missing hash: a hash that is under no loose object and in no index
/// gives no object, and no failure.
pub proof fn lemma_missing_hash(
    loose: Seq<crate::repo::LooseView>,
    packs: Seq<PackView>,
    h: Seq<u8>,
)
    requires
        nowhere(loose, packs, h),
    ensures
        spec_get_object(loose, packs, h) == Ok::<Option<crate::format::ObjectView>, Error>(None),
{
    crate::repo::lemma_loose_index(loose, h, loose.len() as int);
    assert forall|p: int| 0 <= p < packs.len() implies crate::index::spec_find(
        (#[trigger] packs[p]).index,
        h,
    ) is None by {
        crate::index::lemma_find_holds(packs[p].index, h);
    }
    lemma_pack_lookup(packs, h, packs.len() as int);
}

/// Gets the object under `hash` from loose objects and packs.
pub fn get_object(
    loose: &[crate::repo::LooseObject],
    packs: &[Pack],
    hash: &crate::object::Hash,
) -> (res: Result<Option<crate::object::Object>, Error>)
    ensures
        agrees_some(
            res,
            spec_get_object(crate::repo::loose_views(loose@), pack_views(packs@), hash@),
        ),
{
    let i = crate::repo::find_loose(loose, hash);
    if i < loose.len() {
        assert(crate::repo::loose_views(loose@)[i as int].obj == loose@[i as int].obj@);
        return Ok(Some(loose[i].obj.duplicate()));
    }
    match find_pack(packs, hash) {
        Some((p, offset)) => {
            let depth = packs[p].max_depth();
            assert(pack_views(packs@)[p as int].max_depth == depth);
            let raw = match resolve_at(loose, packs, p, offset, depth) {
                Ok(r) => r,
                Err(e) => {
                    return Err(e);
                },
            };
            match crate::object::parse_body(raw.typp, raw.body.as_slice()) {
                Ok(obj) => Ok(Some(obj)),
                Err(e) => Err(e),
            }
        },
        None => Ok(None),
    }
}

/// `std::slice::from_ref`: the slice that holds `item` and nothing else.
#[verifier::external_body]
fn single(item: &Pack) -> (res: &[Pack])
    ensures
        res@ == seq![*item],
{
    std::slice::from_ref(item)
}

/// The bytes that declare the kind and the size of an entry.
pub open spec fn entry_header_bytes(kind: ObjType, size: u64) -> Seq<u8> {
    if size < 16 {
        seq![(code_of(kind) * 16 + size) as u8]
    } else {
        seq![(128 + code_of(kind) * 16 + size % 16) as u8] + groups_of((size / 16) as nat)
    }
}

/// Pack header varint: the bytes that declare a kind and a size, with
/// anything after them, are read as that kind and that size.
pub proof fn lemma_entry_header_round_trip(kind: ObjType, size: u64, rest: Seq<u8>)
    ensures
        spec_entry_header(entry_header_bytes(kind, size) + rest) == Ok::<
            (ObjType, u64, int),
            Error,
        >((kind, size, entry_header_bytes(kind, size).len() as int)),
{
    let head = entry_header_bytes(kind, size);
    let s = head + rest;
    let code = code_of(kind);
    assert(obj_type_of(code) == Some(kind));
    if size < 16 {
        let first = (code * 16 + size) as u8;
        assert(s[0] == first);
        assert(first as int / 16 == code);
        assert(first % 16 == size);
        assert(s.subrange(1, 1) =~= Seq::<u8>::empty());
    } else {
        let first = (128 + code * 16 + size % 16) as u8;
        let groups = groups_of((size / 16) as nat);
        lemma_groups_of((size / 16) as nat, rest);
        assert(s[0] == first);
        assert(first as int / 16 == 8 + code);
        assert(first % 16 == size % 16);
        assert(s.drop_first() =~= groups + rest);
        assert(run_len(s) == groups.len());
        assert(s.subrange(1, groups.len() as int + 1) =~= groups);
    }
}

/// Writes `n` in 7-bit groups at the end of `out`.
fn push_groups(out: &mut Vec<u8>, n: u64)
    ensures
        final(out)@ == old(out)@ + groups_of(n as nat),
    decreases n,
{
    if n < 128 {
        out.push(n as u8);
        assert(out@ =~= old(out)@ + groups_of(n as nat));
    } else {
        out.push((n % 128 + 128) as u8);
        push_groups(out, n / 128);
        assert(out@ =~= old(out)@ + groups_of(n as nat));
    }
}

/// Writes the bytes that declare the kind and the size of an entry.
pub fn encode_pack_obj_header(kind: ObjType, size: u64) -> (res: Vec<u8>)
    ensures
        res@ == entry_header_bytes(kind, size),
        spec_entry_header(res@) == Ok::<(ObjType, u64, int), Error>(
            (kind, size, res@.len() as int),
        ),
{
    let code: u64 = match kind {
        ObjType::Commit => 1,
        ObjType::Tree => 2,
        ObjType::Blob => 3,
        ObjType::Tag => 4,
        ObjType::OfsDelta => 6,
        ObjType::RefDelta => 7,
    };
    let mut out: Vec<u8> = Vec::new();
    if size < 16 {
        out.push((code * 16 + size) as u8);
    } else {
        out.push((128 + code * 16 + size % 16) as u8);
        push_groups(&mut out, size / 16);
    }
    assert(out@ =~= entry_header_bytes(kind, size));
    proof {
        lemma_entry_header_round_trip(kind, size, Seq::empty());
        assert(out@ + Seq::<u8>::empty() =~= out@);
    }
    out
}

/// `s` with `x` put after the last offset that is no greater than `x`.
pub open spec fn insert_sorted(s: Seq<u64>, x: u64) -> Seq<u64>
    decreases s.len(),
{
    if s.len() == 0 {
        seq![x]
    } else if s.last() <= x {
        s.push(x)
    } else {
        insert_sorted(s.drop_last(), x).push(s.last())
    }
}

/// The offsets of `s` in ascending order.
pub open spec fn sort_offsets(s: Seq<u64>) -> Seq<u64>
    decreases s.len(),
{
    if s.len() == 0 {
        s
    } else {
        insert_sorted(sort_offsets(s.drop_last()), s.last())
    }
}

/// No offset is greater than one after it.
pub open spec fn ascending(s: Seq<u64>) -> bool {
    forall|i: int, j: int| 0 <= i <= j < s.len() ==> s[i] <= s[j]
}

/// Putting an offset into ascending offsets keeps them ascending, and
/// adds that offset and no other.
pub proof fn lemma_insert_sorted(s: Seq<u64>, x: u64)
    requires
        ascending(s),
    ensures
        ascending(insert_sorted(s, x)),
        insert_sorted(s, x).to_multiset() == s.to_multiset().insert(x),
        insert_sorted(s, x).len() == s.len() + 1,
        forall|i: int|
            0 <= i < insert_sorted(s, x).len() ==> (#[trigger] insert_sorted(s, x)[i]) == x || (
            exists|j: int| 0 <= j < s.len() && s[j] == insert_sorted(s, x)[i]),
    decreases s.len(),
{
    let r = insert_sorted(s, x);
    vstd::seq_lib::to_multiset_build(s, x);
    if s.len() == 0 {
        assert(seq![x] =~= s.push(x));
    } else if s.last() <= x {
        assert forall|i: int| 0 <= i < r.len() implies (#[trigger] r[i]) == x || (exists|j: int|
            0 <= j < s.len() && s[j] == r[i]) by {
            if i < s.len() {
                assert(s[i] == r[i]);
            }
        }
    } else {
        let d = s.drop_last();
        let inner = insert_sorted(d, x);
        assert forall|i: int, j: int| 0 <= i <= j < d.len() implies d[i] <= d[j] by {
            assert(d[i] == s[i] && d[j] == s[j]);
        }
        lemma_insert_sorted(d, x);
        vstd::seq_lib::to_multiset_build(inner, s.last());
        vstd::seq_lib::to_multiset_build(d, s.last());
        assert(d.push(s.last()) =~= s);
        assert(d.to_multiset().insert(x).insert(s.last()) =~= d.to_multiset().insert(
            s.last(),
        ).insert(x));
        assert forall|i: int| 0 <= i < inner.len() implies inner[i] <= s.last() by {
            if inner[i] != x {
                let j = choose|j: int| 0 <= j < d.len() && d[j] == inner[i];
                assert(s[j] <= s[s.len() - 1]);
            }
        }
        assert forall|i: int, j: int| 0 <= i <= j < r.len() implies r[i] <= r[j] by {
            if j < inner.len() {
                assert(r[i] == inner[i] && r[j] == inner[j]);
            } else if i < inner.len() {
                assert(r[i] == inner[i]);
            }
        }
        assert forall|i: int| 0 <= i < r.len() implies (#[trigger] r[i]) == x || (exists|j: int|
            0 <= j < s.len() && s[j] == r[i]) by {
            if i < inner.len() {
                assert(r[i] == inner[i]);
                if inner[i] != x {
                    let j = choose|j: int| 0 <= j < d.len() && d[j] == inner[i];
                    assert(s[j] == r[i]);
                }
            } else {
                assert(s[s.len() - 1] == r[i]);
            }
        }
    }
}

/// Sorting gives the same offsets, each as often as before, in
/// ascending order.
pub proof fn lemma_sort_offsets(s: Seq<u64>)
    ensures
        ascending(sort_offsets(s)),
        sort_offsets(s).to_multiset() == s.to_multiset(),
        sort_offsets(s).len() == s.len(),
    decreases s.len(),
{
    if s.len() > 0 {
        let d = s.drop_last();
        lemma_sort_offsets(d);
        lemma_insert_sorted(sort_offsets(d), s.last());
        vstd::seq_lib::to_multiset_build(d, s.last());
        assert(d.push(s.last()) =~= s);
    }
}

/// Where everything from `i` on is greater than `x`, and what stands
/// before `i` is not, `x` goes to `i`.
pub proof fn lemma_insert_at(s: Seq<u64>, x: u64, i: int)
    requires
        0 <= i <= s.len(),
        forall|j: int| i <= j < s.len() ==> s[j] > x,
        i > 0 ==> s[i - 1] <= x,
    ensures
        insert_sorted(s, x) == s.insert(i, x),
    decreases s.len() - i,
{
    if i == s.len() {
        assert(s.insert(i, x) =~= s.push(x));
        if s.len() == 0 {
            assert(seq![x] =~= s.push(x));
        }
    } else {
        let d = s.drop_last();
        assert(s.last() > x);
        assert forall|j: int| i <= j < d.len() implies d[j] > x by {
            assert(d[j] == s[j]);
        }
        if i > 0 {
            assert(d[i - 1] == s[i - 1]);
        }
        lemma_insert_at(d, x, i);
        assert(d.insert(i, x).push(s.last()) =~= s.insert(i, x));
    }
}

/// Puts `x` into `v` after the last offset that is no greater than `x`.
fn insert_offset(v: &mut Vec<u64>, x: u64)
    ensures
        final(v)@ == insert_sorted(old(v)@, x),
{
    let mut i: usize = v.len();
    while i > 0 && v[i - 1] > x
        invariant
            i <= v@.len(),
            v@ == old(v)@,
            forall|j: int| i <= j < v@.len() ==> v@[j] > x,
        decreases i,
    {
        i -= 1;
    }
    proof {
        lemma_insert_at(v@, x, i as int);
    }
    v.insert(i, x);
}

/// The offsets of the lines of an index, in the order of the lines.
pub open spec fn index_offsets(index: PackIndexView) -> Seq<u64> {
    Seq::new(index.entries.len(), |i: int| index.entries[i].offset)
}

/// The views of a run of objects.
pub open spec fn object_views(s: Seq<crate::object::Object>) -> Seq<crate::format::ObjectView> {
    Seq::new(s.len(), |i: int| s[i]@)
}

/// The object that a kind and a body make.
pub open spec fn read_object(raw: Result<RawView, Error>) -> Result<
    crate::format::ObjectView,
    Error,
> {
    match raw {
        Ok(r) => crate::format::spec_parse_body(r.typp, r.body),
        Err(e) => Err(e),
    }
}

/// `first` put before the objects of `rest`, or the failure of `rest`.
pub open spec fn prepend_objects(
    first: Seq<crate::format::ObjectView>,
    rest: Result<Seq<crate::format::ObjectView>, Error>,
) -> Result<Seq<crate::format::ObjectView>, Error> {
    match rest {
        Ok(more) => Ok(first + more),
        Err(e) => Err(e),
    }
}

/// The object of the entry at `offset` of a pack that stands alone.
#[verifier::opaque]
pub open spec fn spec_object_at(pack: PackView, offset: u64) -> Result<
    crate::format::ObjectView,
    Error,
> {
    read_object(spec_resolve_at(Seq::empty(), seq![pack], 0, offset as int, pack.max_depth))
}

/// The objects of the entries at these offsets of a pack, in this
/// order; the first failure, where an entry fails.
pub open spec fn spec_objects_at(pack: PackView, offsets: Seq<u64>) -> Result<
    Seq<crate::format::ObjectView>,
    Error,
>
    decreases offsets.len(),
{
    if offsets.len() == 0 {
        Ok(Seq::empty())
    } else {
        match spec_object_at(pack, offsets[0]) {
            Ok(obj) => prepend_objects(seq![obj], spec_objects_at(pack, offsets.drop_first())),
            Err(e) => Err(e),
        }
    }
}

/// What an index and a pack hold: the objects of all lines of the
/// index, in the order in which their entries stand in the pack.
pub open spec fn spec_parse_pack(index: Seq<u8>, pack: Seq<u8>) -> Result<
    Seq<crate::format::ObjectView>,
    Error,
> {
    match spec_new_pack(index, pack) {
        Ok(p) => spec_objects_at(p, sort_offsets(index_offsets(p.index))),
        Err(e) => Err(e),
    }
}

/// Reads every object of a pack, given the bytes of its index and its
/// own: in the order in which the entries stand in the pack.
pub fn parse_pack(index: &[u8], pack: &[u8]) -> (res: Result<Vec<crate::object::Object>, Error>)
    ensures
        match spec_parse_pack(index@, pack@) {
            Ok(objs) => res matches Ok(v) && object_views(v@) == objs,
            Err(e) => res matches Err(f) && f == e,
        },
{
    let decoded = match check_pack(index, pack) {
        Ok(i) => i,
        Err(e) => {
            return Err(e);
        },
    };
    let whole = Pack {
        index: decoded,
        pack: vstd::slice::slice_to_vec(pack),
        max_depth: DEFAULT_MAX_DEPTH,
    };
    whole.objects()
}

/// A hash that the index of a lone pack holds gives the object of the
/// entry at the offset that the index gives.
pub proof fn lemma_get_packed(pack: PackView, h: Seq<u8>)
    requires
        crate::index::spec_find(pack.index, h) is Some,
    ensures
        spec_get_object(Seq::empty(), seq![pack], h) == read_raw(
            spec_resolve_at(
                Seq::empty(),
                seq![pack],
                0,
                crate::index::spec_find(pack.index, h)->0 as int,
                pack.max_depth,
            ),
        ),
{
    crate::repo::lemma_loose_index(Seq::empty(), h, 0);
    lemma_pack_lookup(seq![pack], h, 0);
}

/// A delta by offset on an entry that holds an object outright gives
/// what the delta makes of that object, where the pack allows a chain
/// of one delta.
pub proof fn lemma_delta_on_whole(pack: PackView, offset: int, rel: i64)
    requires
        pack.max_depth >= 1,
        spec_read_entry(pack.data, offset) matches Ok((header, _)) && header.base == Some(
            DeltaBaseView::Offset(rel),
        ),
        spec_read_entry(pack.data, offset + rel) matches Ok((below, _)) && below.base is None,
    ensures
        ({
            let (header, start) = spec_read_entry(pack.data, offset)->Ok_0;
            let (below, below_start) = spec_read_entry(pack.data, offset + rel)->Ok_0;
            spec_resolve_at(Seq::empty(), seq![pack], 0, offset, pack.max_depth) == patched(
                whole(below.kind, spec_payload(pack.data, below_start, below.inflated_size)),
                spec_payload(pack.data, start, header.inflated_size),
            )
        }),
{
    let packs = seq![pack];
    let (below, below_start) = spec_read_entry(pack.data, offset + rel)->Ok_0;
    assert(packs[0] == pack);
    assert(spec_resolve_at(
        Seq::empty(),
        packs,
        0,
        offset + rel,
        (pack.max_depth - 1) as nat,
    ) == whole(below.kind, spec_payload(pack.data, below_start, below.inflated_size)));
}

/// Delta application, through a pack: where the index gives for a
/// hash an entry that is a delta by offset on a blob, the blob
/// inflates to a short base, and the delta inflates to the bytes that
/// put some bytes into that base, the hash gives the blob of the base
/// with those bytes put in.
pub proof fn lemma_spliced_blob(
    pack: PackView,
    h: Seq<u8>,
    rel: i64,
    base: Seq<u8>,
    at: u8,
    bytes: Seq<u8>,
)
    requires
        pack.max_depth >= 1,
        crate::index::spec_find(pack.index, h) is Some,
        spec_read_entry(pack.data, crate::index::spec_find(pack.index, h)->0 as int) matches Ok(
            (header, _),
        ) && header.base == Some(DeltaBaseView::Offset(rel)),
        spec_read_entry(
            pack.data,
            crate::index::spec_find(pack.index, h)->0 + rel,
        ) matches Ok((below, _)) && below.base is None && below.kind == ObjType::Blob,
        at <= base.len() <= 255,
        1 <= bytes.len() <= 127,
    ensures
        ({
            let offset = crate::index::spec_find(pack.index, h)->0 as int;
            let (header, start) = spec_read_entry(pack.data, offset)->Ok_0;
            let (below, below_start) = spec_read_entry(pack.data, offset + rel)->Ok_0;
            spec_payload(pack.data, below_start, below.inflated_size) == Ok::<Seq<u8>, Error>(base)
                && spec_payload(pack.data, start, header.inflated_size) == Ok::<Seq<u8>, Error>(
                crate::delta::splice_bytes(base.len() as u8, at, bytes),
            ) ==> spec_get_object(Seq::empty(), seq![pack], h) == Ok::<
                Option<crate::format::ObjectView>,
                Error,
            >(
                Some(
                    crate::format::ObjectView::Blob(
                        base.take(at as int) + bytes + base.skip(at as int),
                    ),
                ),
            )
        }),
{
    let offset = crate::index::spec_find(pack.index, h)->0 as int;
    lemma_get_packed(pack, h);
    lemma_delta_on_whole(pack, offset, rel);
    crate::delta::lemma_splice_bytes(base, at, bytes);
}

} // verus!
