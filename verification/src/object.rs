//! Hashes, and the three kinds of object with their canonical encoding.

use crate::error::CommitField;
use crate::error::Error;
use crate::error::FieldFault;
use crate::format::{
    body_of, canonical, commit_body, framed, header_bytes, kind_of, lemma_parent_lines_push,
    lemma_tree_body_push, no_parts, parent_line, parent_lines, prepend_entries, record_bytes,
    record_text, spec_commit_lines, spec_parse_body, spec_parse_commit, spec_parse_header,
    spec_parse_object, spec_parse_record, spec_parse_tree, spec_record_line,
    tree_body, tree_entry_bytes, word_author, word_blob, word_commit, word_committer,
    word_parent, word_tree, CommitParts, CommitView, ObjectView, RecordView, TreeEntryView, GT,
    LF, LT, NUL, SPACE,
};
use crate::format::{dir_mode, sort_key, tree_sorted, wf_commit, wf_entry, wf_object, wf_record};
use crate::laws::{
    lemma_parsed_commit_wf, lemma_parsed_entry_wf, lemma_parsed_record_wf, lemma_parsed_tree_wf,
    lemma_record_text, lemma_round_trip,
};
use crate::text::{
    ascii_chars, decimal_digits, find_byte, format_decimal, hex_bytes, hex_digit, hex_text,
    is_ascii_bytes, is_digit, is_hex_text, lacks, lemma_ascii_utf8, lemma_decimal_digits,
    parse_decimal, position, spec_parse_decimal, starts_with,
};
use crate::util::{decode, encode, utf8, zlib_deflated, zlib_inflated};
use vstd::prelude::*;
use vstd::slice::slice_to_vec;
use vstd::string::StringExecFns;
use vstd::string::StringSliceAdditionalSpecFns;
use vstd::utf8::*;

verus! {

/// `hex::FromHexError`: what `hex::decode` fails with. Nothing is read
/// from it.
#[verifier::external_type_specification]
#[verifier::external_body]
pub struct ExFromHexError(hex::FromHexError);

/// The SHA-1 digest of `data`.
pub uninterp spec fn sha1_of(data: Seq<u8>) -> Seq<u8>;

/// `sha1::Sha1::from(data).digest().bytes()`: the SHA-1 digest of `data`.
#[verifier::external_body]
fn sha1_digest(data: &[u8]) -> (res: [u8; 20])
    ensures
        res@ == sha1_of(data@),
{
    sha1::Sha1::from(data).digest().bytes()
}

/// `hex::decode`: succeeds exactly on an even number of hex digits of
/// either case, and yields the byte that each pair of digits writes.
#[verifier::external_body]
fn hex_decode(v: &[u8]) -> (res: Result<Vec<u8>, hex::FromHexError>)
    ensures
        res matches Ok(bytes) ==> is_hex_text(v@) && bytes@ == hex_bytes(v@),
        res is Err ==> !is_hex_text(v@),
{
    hex::decode(v)
}

/// A 20-byte content fingerprint.
#[derive(Clone, Copy, Debug, PartialEq, Eq, Hash)]
pub struct Hash {
    hash: [u8; 20],
}

impl View for Hash {
    type V = Seq<u8>;

    closed spec fn view(&self) -> Seq<u8> {
        self.hash@
    }
}

impl Hash {
    /// A hash is 20 bytes long.
    pub proof fn lemma_len(self)
        ensures
            self@.len() == 20,
    {
    }

    /// The SHA-1 digest of `data`.
    pub fn sum(data: &[u8]) -> (res: Hash)
        ensures
            res@ == sha1_of(data@),
    {
        Hash { hash: sha1_digest(data) }
    }

    /// The hash whose bytes are `v`, which must be 20 of them.
    pub fn from(v: &[u8]) -> (res: Result<Hash, Error>)
        ensures
            v@.len() == 20 ==> (res matches Ok(h) && h@ == v@),
            v@.len() != 20 ==> res == Err::<Hash, Error>(Error::MalformedHash),
    {
        if v.len() == 20 {
            let mut hash: [u8; 20] = [0;20];
            let mut i: usize = 0;
            while i < 20
                invariant
                    i <= 20,
                    v@.len() == 20,
                    forall|j: int| 0 <= j < i ==> hash@[j] == v@[j],
                decreases 20 - i,
            {
                hash[i] = v[i];
                i += 1;
            }
            assert(hash@ =~= v@);
            Ok(Hash { hash })
        } else {
            Err(Error::MalformedHash)
        }
    }

    /// The hash that 40 hex digits write.
    pub fn from_hex(v: &[u8]) -> (res: Result<Hash, Error>)
        ensures
            is_hex_text(v@) && v@.len() == 40 ==> (res matches Ok(h) && h@ == hex_bytes(v@)),
            !(is_hex_text(v@) && v@.len() == 40) ==> res == Err::<Hash, Error>(
                Error::MalformedHash,
            ),
    {
        match hex_decode(v) {
            Ok(bytes) => Hash::from(bytes.as_slice()),
            Err(_) => Err(Error::MalformedHash),
        }
    }

    /// The bytes of the hash.
    pub fn bytes(&self) -> (res: &[u8])
        ensures
            res@ == self@,
    {
        self.hash.as_slice()
    }

    /// The hash as 40 lowercase hex digits.
    pub fn hex_digits(&self) -> (res: Vec<u8>)
        ensures
            res@ == hex_text(self@),
    {
        let mut out: Vec<u8> = Vec::new();
        let mut i: usize = 0;
        while i < 20
            invariant
                i <= 20,
                out@ == hex_text(self@.take(i as int)),
            decreases 20 - i,
        {
            let b: u8 = self.hash[i];
            out.push(digit_of(b / 16));
            out.push(digit_of(b % 16));
            assert(out@ =~= hex_text(self@.take(i + 1)));
            i += 1;
        }
        assert(self@.take(20) =~= self@);
        out
    }

    /// The hash as text: 40 lowercase hex digits.
    pub fn hex(&self) -> (res: String)
        ensures
            res@ == ascii_chars(hex_text(self@)),
    {
        let digits = self.hex_digits();
        proof {
            lemma_hex_text_ascii(self@);
            lemma_ascii_utf8(digits@);
        }
        match utf8(digits.as_slice()) {
            Ok(s) => s,
            Err(_) => String::new(),
        }
    }

    /// Whether two hashes hold the same bytes.
    pub fn same(&self, other: &Hash) -> (res: bool)
        ensures
            res == (self@ == other@),
    {
        let mut i: usize = 0;
        while i < 20
            invariant
                i <= 20,
                forall|j: int| 0 <= j < i ==> self@[j] == other@[j],
            decreases 20 - i,
        {
            if self.hash[i] != other.hash[i] {
                return false;
            }
            i += 1;
        }
        assert(self@ =~= other@);
        true
    }
}

/// The lowercase hex digit for `n`, which is below 16.
fn digit_of(n: u8) -> (res: u8)
    requires
        n < 16,
    ensures
        res == hex_digit(n as int),
{
    if n < 10 {
        48 + n
    } else {
        87 + n
    }
}

proof fn lemma_hex_text_ascii(s: Seq<u8>)
    ensures
        is_ascii_bytes(hex_text(s)),
{
    let t = hex_text(s);
    assert forall|i: int| 0 <= i < t.len() implies #[trigger] t[i] < 128 by {
        let b = s[i / 2];
        assert(0 <= b as int / 16 < 16);
        assert(0 <= b as int % 16 < 16);
    }
}

/// The kind of an object.
#[derive(Clone, Copy, Debug, PartialEq, Eq, Structural)]
pub enum Type {
    Blob,
    Tree,
    Commit,
}

/// What the first line of an object declares: its kind and the length of its body.
#[derive(Clone, Copy, Debug, PartialEq, Eq, Structural)]
pub struct Header {
    pub typp: Type,
    pub size: usize,
}

impl Header {
    /// Reads a header line: `blob`, `tree` or `commit`, a space, and a
    /// size in decimal digits.
    pub fn parse(raw_header: &[u8]) -> (res: Result<Header, Error>)
        ensures
            match spec_parse_header(raw_header@) {
                Some(h) => res == Ok::<Header, Error>(h),
                None => res == Err::<Header, Error>(Error::UnrecognizedHeader),
            },
    {
        let sp = position(raw_header, SPACE);
        if sp >= raw_header.len() {
            return Err(Error::UnrecognizedHeader);
        }
        let word = &raw_header[0..sp];
        let blob = blob_word();
        let tree = tree_word();
        let commit = commit_word();
        let typp = if word.len() == 4 && starts_with(word, blob.as_slice()) {
            assert(word@.take(4) =~= word@);
            Type::Blob
        } else if word.len() == 4 && starts_with(word, tree.as_slice()) {
            assert(word@.take(4) =~= word@);
            Type::Tree
        } else if word.len() == 6 && starts_with(word, commit.as_slice()) {
            assert(word@.take(6) =~= word@);
            Type::Commit
        } else {
            proof {
                if word@.len() == 4 {
                    assert(word@.take(4) =~= word@);
                }
                if word@.len() == 6 {
                    assert(word@.take(6) =~= word@);
                }
            }
            return Err(Error::UnrecognizedHeader);
        };
        match parse_decimal(&raw_header[sp + 1..raw_header.len()]) {
            Some(n) => {
                if n > usize::MAX as u64 {
                    Err(Error::UnrecognizedHeader)
                } else {
                    Ok(Header { typp, size: n as usize })
                }
            },
            None => Err(Error::UnrecognizedHeader),
        }
    }
}

/// Opaque bytes.
#[derive(Clone, Debug, PartialEq, Eq)]
pub struct Blob {
    data: Vec<u8>,
}

impl View for Blob {
    type V = Seq<u8>;

    closed spec fn view(&self) -> Seq<u8> {
        self.data@
    }
}

impl Blob {
    /// The blob of these bytes.
    pub fn new(data: Vec<u8>) -> (res: Blob)
        ensures
            res@ == data@,
    {
        Blob { data }
    }

    /// The bytes of the blob.
    pub fn data(&self) -> (res: &[u8])
        ensures
            res@ == self@,
    {
        self.data.as_slice()
    }

    /// Reads the body of a blob: the bytes as they are.
    pub fn parse(body: &[u8]) -> (res: Result<Blob, Error>)
        ensures
            res matches Ok(b) && b@ == body@,
    {
        Ok(Blob { data: slice_to_vec(body) })
    }

    /// The canonical bytes of the blob.
    pub fn pack(&self) -> (res: Vec<u8>)
        ensures
            res@ == canonical(ObjectView::Blob(self@)),
    {
        frame(Type::Blob, self.data.as_slice())
    }

    /// The hash of the blob.
    pub fn hash(&self) -> (res: Hash)
        ensures
            res@ == sha1_of(canonical(ObjectView::Blob(self@))),
    {
        let bytes = self.pack();
        Hash::sum(bytes.as_slice())
    }

    /// The blob as a loose object.
    pub fn encode(&self) -> (res: Result<Vec<u8>, Error>)
        ensures
            match zlib_deflated(canonical(ObjectView::Blob(self@))) {
                Some(stream) => res matches Ok(out) && out@ == stream && zlib_inflated(out@)
                    == Some(canonical(ObjectView::Blob(self@))),
                None => res == Err::<Vec<u8>, Error>(Error::CompressFailed),
            },
    {
        let bytes = self.pack();
        encode(bytes.as_slice())
    }

    /// A copy of the blob.
    pub fn duplicate(&self) -> (res: Blob)
        ensures
            res@ == self@,
    {
        Blob { data: copy_bytes(&self.data) }
    }
}

/// One line of a directory: a mode, a name and the hash of what is named.
#[derive(Debug, PartialEq, Eq)]
pub struct TreeEntry {
    mode: String,
    name: String,
    hash: Hash,
}

impl View for TreeEntry {
    type V = TreeEntryView;

    closed spec fn view(&self) -> TreeEntryView {
        TreeEntryView { mode: self.mode@, name: self.name@, hash: self.hash@ }
    }
}

impl TreeEntry {
    #[verifier::type_invariant]
    spec fn well_formed(self) -> bool {
        wf_entry(self@)
    }

    /// The entry of this mode, name and hash. There is none where the
    /// mode holds a space or a `NUL`, or the name a `NUL`: the bytes of
    /// such an entry would not denote it.
    pub fn new(mode: String, name: String, hash: Hash) -> (res: Option<TreeEntry>)
        ensures
            match res {
                Some(e) => e@ == (TreeEntryView { mode: mode@, name: name@, hash: hash@ })
                    && wf_entry(e@),
                None => !wf_entry(TreeEntryView { mode: mode@, name: name@, hash: hash@ }),
            },
    {
        proof {
            hash.lemma_len();
        }
        if lacks(mode.as_str().as_bytes(), SPACE) && lacks(mode.as_str().as_bytes(), NUL) && lacks(
            name.as_str().as_bytes(),
            NUL,
        ) {
            Some(TreeEntry { mode, name, hash })
        } else {
            None
        }
    }

    /// The mode, such as `100644` or `40000`.
    pub fn mode(&self) -> (res: &str)
        ensures
            res@ == self@.mode,
    {
        self.mode.as_str()
    }

    /// The name: one segment of a path.
    pub fn name(&self) -> (res: &str)
        ensures
            res@ == self@.name,
    {
        self.name.as_str()
    }

    /// The hash of what is named.
    pub fn hash(&self) -> (res: Hash)
        ensures
            res@ == self@.hash,
    {
        self.hash
    }

    /// What the entry is ordered by.
    pub fn sort_key(&self) -> (res: Vec<u8>)
        ensures
            res@ == sort_key(self@),
    {
        let dir: [u8; 5] = ['4' as u8, '0' as u8, '0' as u8, '0' as u8, '0' as u8];
        assert(dir@ =~= dir_mode());
        let mode = self.mode.as_str().as_bytes();
        let mut key = slice_to_vec(self.name.as_str().as_bytes());
        if mode.len() == 5 && starts_with(mode, dir.as_slice()) {
            assert(mode@.take(5) =~= mode@);
            key.push('/' as u8);
        } else {
            proof {
                if mode@.len() == 5 {
                    assert(mode@.take(5) =~= mode@);
                }
            }
        }
        key
    }

    /// Puts the entry at the end of `out`, as it stands in the body of a tree.
    fn pack_into(&self, out: &mut Vec<u8>)
        ensures
            final(out)@ == old(out)@ + tree_entry_bytes(self@),
    {
        append_bytes(out, self.mode.as_str().as_bytes());
        out.push(SPACE);
        append_bytes(out, self.name.as_str().as_bytes());
        out.push(NUL);
        append_bytes(out, self.hash.bytes());
        assert(out@ =~= old(out)@ + tree_entry_bytes(self@));
    }

    /// A copy of the entry.
    pub fn duplicate(&self) -> (res: TreeEntry)
        ensures
            res@ == self@,
    {
        proof {
            use_type_invariant(self);
        }
        TreeEntry { mode: self.mode.clone(), name: self.name.clone(), hash: self.hash }
    }
}

/// A directory: entries in the order in which they are stored.
#[derive(Debug, PartialEq, Eq)]
pub struct Tree {
    children: Vec<TreeEntry>,
}

impl View for Tree {
    type V = Seq<TreeEntryView>;

    closed spec fn view(&self) -> Seq<TreeEntryView> {
        entry_views(self.children@)
    }
}

impl Tree {
    #[verifier::type_invariant]
    spec fn well_formed(self) -> bool {
        wf_object(ObjectView::Tree(self@))
    }

    /// The tree of these entries, in this order.
    pub fn new(children: Vec<TreeEntry>) -> (res: Tree)
        ensures
            res@ == entry_views(children@),
    {
        let mut i: usize = 0;
        while i < children.len()
            invariant
                i <= children@.len(),
                forall|j: int| 0 <= j < i ==> wf_entry(#[trigger] entry_views(children@)[j]),
            decreases children@.len() - i,
        {
            let entry = &children[i];
            proof {
                use_type_invariant(entry);
            }
            i += 1;
        }
        Tree { children }
    }

    /// The number of entries.
    pub fn len(&self) -> (res: usize)
        ensures
            res == self@.len(),
    {
        self.children.len()
    }

    /// Entry `i`, in stored order.
    pub fn entry(&self, i: usize) -> (res: Option<&TreeEntry>)
        ensures
            i < self@.len() ==> (res matches Some(e) && e@ == self@[i as int]),
            i >= self@.len() ==> res is None,
    {
        if i < self.children.len() {
            Some(&self.children[i])
        } else {
            None
        }
    }

    /// Reads the body of a tree: entries of the form
    /// `<mode> <name>\0<20-byte hash>`, until the body is used up.
    pub fn parse(body: &[u8]) -> (res: Result<Tree, Error>)
        ensures
            agrees(res, spec_parse_tree(body@)),
    {
        let mut entries: Vec<TreeEntry> = Vec::new();
        let mut tail: &[u8] = body;
        assert(entry_views(entries@) + Seq::<TreeEntryView>::empty() =~= Seq::empty());
        while tail.len() > 0
            invariant
                spec_parse_tree(body@) == prepend_entries(
                    entry_views(entries@),
                    spec_parse_tree(tail@),
                ),
            decreases tail@.len(),
        {
            let nul = position(tail, NUL);
            let sp = position(tail, SPACE);
            if nul >= tail.len() || tail.len() - nul < 21 || sp >= nul {
                return Err(Error::TruncatedTreeEntry);
            }
            let mode = match utf8(&tail[0..sp]) {
                Ok(s) => s,
                Err(e) => {
                    return Err(e);
                },
            };
            let name = match utf8(&tail[sp + 1..nul]) {
                Ok(s) => s,
                Err(e) => {
                    return Err(e);
                },
            };
            let hash = match Hash::from(&tail[nul + 1..nul + 21]) {
                Ok(h) => h,
                Err(e) => {
                    return Err(e);
                },
            };
            proof {
                lemma_parsed_entry_wf(tail@);
            }
            let entry = TreeEntry { mode, name, hash };
            proof {
                let rest = spec_parse_tree(tail@.skip(nul + 21));
                assert(entry_views(entries@.push(entry)) =~= entry_views(entries@) + seq![entry@]);
                if let Ok(more) = rest {
                    assert((entry_views(entries@) + seq![entry@]) + more =~= entry_views(entries@)
                        + (seq![entry@] + more));
                }
            }
            entries.push(entry);
            tail = &tail[nul + 21..tail.len()];
        }
        assert(entry_views(entries@) + Seq::<TreeEntryView>::empty() =~= entry_views(entries@));
        proof {
            lemma_parsed_tree_wf(body@);
        }
        Ok(Tree { children: entries })
    }

    /// Whether the entries stand in the canonical order: by the bytes
    /// of their names, a directory as if its name ended in `/`.
    pub fn is_sorted(&self) -> (res: bool)
        ensures
            res == tree_sorted(self@),
    {
        let mut i: usize = 1;
        while i < self.children.len()
            invariant
                1 <= i,
                forall|j: int|
                    0 < j < i && j < self@.len() ==> crate::text::lex_le(
                        sort_key(self@[j - 1]),
                        sort_key(#[trigger] self@[j]),
                    ),
            decreases self.children@.len() - i,
        {
            let above = self.children[i - 1].sort_key();
            let here = self.children[i].sort_key();
            if crate::text::bytes_before(here.as_slice(), above.as_slice()) {
                assert(!crate::text::lex_le(sort_key(self@[i - 1]), sort_key(self@[i as int])));
                return false;
            }
            i += 1;
        }
        true
    }

    /// The body of the tree: its entries in stored order.
    pub fn body(&self) -> (res: Vec<u8>)
        ensures
            res@ == tree_body(self@),
    {
        let mut body: Vec<u8> = Vec::new();
        let mut i: usize = 0;
        assert(entry_views(self.children@).take(0) =~= Seq::<TreeEntryView>::empty());
        while i < self.children.len()
            invariant
                i <= self.children@.len(),
                body@ == tree_body(entry_views(self.children@).take(i as int)),
            decreases self.children@.len() - i,
        {
            proof {
                let views = entry_views(self.children@);
                lemma_tree_body_push(views.take(i as int), views[i as int]);
                assert(views.take(i + 1) =~= views.take(i as int).push(views[i as int]));
            }
            self.children[i].pack_into(&mut body);
            i += 1;
        }
        assert(entry_views(self.children@).take(i as int) =~= entry_views(self.children@));
        body
    }

    /// The canonical bytes of the tree.
    pub fn pack(&self) -> (res: Vec<u8>)
        ensures
            res@ == canonical(ObjectView::Tree(self@)),
    {
        let body = self.body();
        frame(Type::Tree, body.as_slice())
    }

    /// The hash of the tree.
    pub fn hash(&self) -> (res: Hash)
        ensures
            res@ == sha1_of(canonical(ObjectView::Tree(self@))),
    {
        let bytes = self.pack();
        Hash::sum(bytes.as_slice())
    }

    /// The tree as a loose object.
    pub fn encode(&self) -> (res: Result<Vec<u8>, Error>)
        ensures
            match zlib_deflated(canonical(ObjectView::Tree(self@))) {
                Some(stream) => res matches Ok(out) && out@ == stream && zlib_inflated(out@)
                    == Some(canonical(ObjectView::Tree(self@))),
                None => res == Err::<Vec<u8>, Error>(Error::CompressFailed),
            },
    {
        let bytes = self.pack();
        encode(bytes.as_slice())
    }

    /// A copy of the tree.
    pub fn duplicate(&self) -> (res: Tree)
        ensures
            res@ == self@,
    {
        let mut children: Vec<TreeEntry> = Vec::new();
        let mut i: usize = 0;
        while i < self.children.len()
            invariant
                i <= self.children@.len(),
                children@.len() == i,
                forall|j: int| 0 <= j < i ==> children@[j]@ == self.children@[j]@,
            decreases self.children@.len() - i,
        {
            children.push(self.children[i].duplicate());
            i += 1;
        }
        assert(entry_views(children@) =~= entry_views(self.children@));
        proof {
            use_type_invariant(self);
        }
        Tree { children }
    }
}

/// Who did something, and when.
#[derive(Debug, PartialEq, Eq)]
pub struct Record {
    name: String,
    email: String,
    time: u64,
    time_zone: String,
}

impl View for Record {
    type V = RecordView;

    closed spec fn view(&self) -> RecordView {
        RecordView {
            name: self.name@,
            email: self.email@,
            time: self.time,
            time_zone: self.time_zone@,
        }
    }
}

impl Record {
    #[verifier::type_invariant]
    spec fn well_formed(self) -> bool {
        wf_record(self@)
    }

    /// The record of this name, address, time and time zone. There is
    /// none where the name holds `<`, `>` or a line feed, the address `>`
    /// or a line feed, or the time zone a line feed: the bytes of such a
    /// record would not denote it.
    pub fn new(name: String, email: String, time: u64, time_zone: String) -> (res: Option<Record>)
        ensures
            match res {
                Some(r) => r@ == (RecordView {
                    name: name@,
                    email: email@,
                    time,
                    time_zone: time_zone@,
                }) && wf_record(r@),
                None => !wf_record(
                    RecordView { name: name@, email: email@, time, time_zone: time_zone@ },
                ),
            },
    {
        let n = name.as_str().as_bytes();
        let e = email.as_str().as_bytes();
        let z = time_zone.as_str().as_bytes();
        if lacks(n, LT) && lacks(n, GT) && lacks(n, LF) && lacks(e, GT) && lacks(e, LF) && lacks(
            z,
            LF,
        ) {
            Some(Record { name, email, time, time_zone })
        } else {
            None
        }
    }

    /// The name.
    pub fn name(&self) -> (res: &str)
        ensures
            res@ == self@.name,
    {
        self.name.as_str()
    }

    /// The e-mail address.
    pub fn email(&self) -> (res: &str)
        ensures
            res@ == self@.email,
    {
        self.email.as_str()
    }

    /// The time, in seconds since 1970.
    pub fn time(&self) -> (res: u64)
        ensures
            res == self@.time,
    {
        self.time
    }

    /// The time zone, such as `+0000`.
    pub fn time_zone(&self) -> (res: &str)
        ensures
            res@ == self@.time_zone,
    {
        self.time_zone.as_str()
    }

    /// Reads `<name> <<email>> <timestamp> <tz>`.
    pub fn parse(v: &[u8]) -> (res: Option<Record>)
        ensures
            agrees_opt(res, spec_parse_record(v@)),
    {
        let l1 = position(v, LT);
        let l2 = position(v, GT);
        if l1 >= v.len() || l2 >= v.len() || l1 < 1 || l2 < l1 + 1 || v.len() - l2 < 2 || position(
            v,
            LF,
        ) < v.len() {
            return None;
        }
        let rest = &v[l2 + 2..v.len()];
        let l3 = position(rest, SPACE);
        if l3 >= rest.len() {
            return None;
        }
        let time = match parse_decimal(&rest[0..l3]) {
            Some(t) => t,
            None => return None,
        };
        let name = match utf8(&v[0..l1 - 1]) {
            Ok(s) => s,
            Err(_) => return None,
        };
        let email = match utf8(&v[l1 + 1..l2]) {
            Ok(s) => s,
            Err(_) => return None,
        };
        let time_zone = match utf8(&rest[l3 + 1..rest.len()]) {
            Ok(s) => s,
            Err(_) => return None,
        };
        proof {
            lemma_parsed_record_wf(v@);
        }
        Some(Record { name, email, time, time_zone })
    }

    /// The record as it stands in a line of a commit.
    pub fn pack_bytes(&self) -> (res: Vec<u8>)
        ensures
            res@ == record_bytes(self@),
    {
        let mut out: Vec<u8> = Vec::new();
        append_bytes(&mut out, self.name.as_str().as_bytes());
        out.push(SPACE);
        out.push(LT);
        append_bytes(&mut out, self.email.as_str().as_bytes());
        out.push(GT);
        out.push(SPACE);
        let digits = format_decimal(self.time);
        append_bytes(&mut out, digits.as_slice());
        out.push(SPACE);
        append_bytes(&mut out, self.time_zone.as_str().as_bytes());
        assert(out@ =~= record_bytes(self@));
        out
    }

    /// The record as text: `<name> <<email>> <timestamp> <tz>`. In
    /// bytes it is the record as it stands in a commit.
    pub fn pack_string(&self) -> (res: String)
        ensures
            res@ == record_text(self@),
            encode_utf8(res@) == record_bytes(self@),
    {
        proof {
            lemma_record_text(self@);
        }
        let digits = format_decimal(self.time);
        proof {
            lemma_decimal_digits(self.time as nat);
            assert(is_ascii_bytes(digits@)) by {
                assert forall|i: int| 0 <= i < digits@.len() implies #[trigger] digits@[i]
                    < 128 by {
                    assert(is_digit(digits@[i]));
                }
            }
            lemma_ascii_utf8(digits@);
            reveal_strlit(" <");
            reveal_strlit("> ");
            reveal_strlit(" ");
        }
        let number = match utf8(digits.as_slice()) {
            Ok(s) => s,
            Err(_) => String::new(),
        };
        let mut out = String::new();
        out.append(self.name.as_str());
        out.append(" <");
        out.append(self.email.as_str());
        out.append("> ");
        out.append(number.as_str());
        out.append(" ");
        out.append(self.time_zone.as_str());
        assert(out@ =~= record_text(self@));
        out
    }

    /// A copy of the record.
    pub fn duplicate(&self) -> (res: Record)
        ensures
            res@ == self@,
    {
        proof {
            use_type_invariant(self);
        }
        Record {
            name: self.name.clone(),
            email: self.email.clone(),
            time: self.time,
            time_zone: self.time_zone.clone(),
        }
    }
}

/// A snapshot: a tree, the commits it follows, and who made it.
#[derive(Debug, PartialEq, Eq)]
pub struct Commit {
    tree: Hash,
    parents: Vec<Hash>,
    author: Record,
    committer: Record,
    message: String,
}

impl View for Commit {
    type V = CommitView;

    closed spec fn view(&self) -> CommitView {
        CommitView {
            tree: self.tree@,
            parents: hash_views(self.parents@),
            author: self.author@,
            committer: self.committer@,
            message: self.message@,
        }
    }
}

impl Commit {
    #[verifier::type_invariant]
    spec fn well_formed(self) -> bool {
        wf_commit(self@)
    }

    /// The commit of these parts.
    pub fn new(
        tree: Hash,
        parents: Vec<Hash>,
        author: Record,
        committer: Record,
        message: String,
    ) -> (res: Commit)
        ensures
            res@ == (CommitView {
                tree: tree@,
                parents: hash_views(parents@),
                author: author@,
                committer: committer@,
                message: message@,
            }),
    {
        proof {
            tree.lemma_len();
            use_type_invariant(&author);
            use_type_invariant(&committer);
            assert forall|i: int| 0 <= i < parents@.len() implies (#[trigger] hash_views(
                parents@,
            )[i]).len() == 20 by {
                parents@[i].lemma_len();
            }
        }
        Commit { tree, parents, author, committer, message }
    }

    /// The hash of the tree.
    pub fn tree(&self) -> (res: Hash)
        ensures
            res@ == self@.tree,
    {
        self.tree
    }

    /// The hashes of the parents, in stored order.
    pub fn parents(&self) -> (res: &Vec<Hash>)
        ensures
            hash_views(res@) == self@.parents,
    {
        &self.parents
    }

    /// Who wrote the change.
    pub fn author(&self) -> (res: &Record)
        ensures
            res@ == self@.author,
    {
        &self.author
    }

    /// Who made the commit.
    pub fn committer(&self) -> (res: &Record)
        ensures
            res@ == self@.committer,
    {
        &self.committer
    }

    /// The message.
    pub fn message(&self) -> (res: &str)
        ensures
            res@ == self@.message,
    {
        self.message.as_str()
    }

    /// Reads the body of a commit.
    pub fn parse(body: &[u8]) -> (res: Result<Commit, Error>)
        ensures
            agrees(res, spec_parse_commit(body@)),
    {
        let mut tree_opt: Option<Hash> = None;
        let mut author_opt: Option<Record> = None;
        let mut committer_opt: Option<Record> = None;
        let mut parents: Vec<Hash> = Vec::new();
        let mut msg: String = String::new();
        let mut tail: &[u8] = body;
        let author = author_word();
        let committer = committer_word();
        let tree = tree_word();
        let parent = parent_word();
        assert(hash_views(parents@) =~= Seq::<Seq<u8>>::empty());
        while tail.len() > 0
            invariant
                author@ == word_author(),
                committer@ == word_committer(),
                tree@ == word_tree(),
                parent@ == word_parent(),
                spec_commit_lines(body@, no_parts()) == spec_commit_lines(
                    tail@,
                    CommitParts {
                        tree: opt_hash_view(tree_opt),
                        parents: hash_views(parents@),
                        author: opt_record_view(author_opt),
                        committer: opt_record_view(committer_opt),
                        message: msg@,
                    },
                ),
            decreases tail@.len(),
        {
            if tail.len() >= 7 && starts_with(tail, author.as_slice()) {
                if author_opt.is_some() {
                    return Err(
                        Error::MalformedCommit {
                            field: CommitField::Author,
                            fault: FieldFault::Duplicate,
                        },
                    );
                }
                match record_line(tail, 7) {
                    Some((record, n)) => {
                        author_opt = Some(record);
                        tail = &tail[n..tail.len()];
                    },
                    None => {
                        return Err(
                            Error::MalformedCommit {
                                field: CommitField::Author,
                                fault: FieldFault::Malformed,
                            },
                        );
                    },
                }
            } else if tail.len() >= 10 && starts_with(tail, committer.as_slice()) {
                if committer_opt.is_some() {
                    return Err(
                        Error::MalformedCommit {
                            field: CommitField::Committer,
                            fault: FieldFault::Duplicate,
                        },
                    );
                }
                match record_line(tail, 10) {
                    Some((record, n)) => {
                        committer_opt = Some(record);
                        tail = &tail[n..tail.len()];
                    },
                    None => {
                        return Err(
                            Error::MalformedCommit {
                                field: CommitField::Committer,
                                fault: FieldFault::Malformed,
                            },
                        );
                    },
                }
            } else if tail.len() >= 46 && starts_with(tail, tree.as_slice()) {
                if tree_opt.is_some() {
                    return Err(
                        Error::MalformedCommit {
                            field: CommitField::Tree,
                            fault: FieldFault::Duplicate,
                        },
                    );
                }
                match Hash::from_hex(&tail[5..45]) {
                    Ok(hash) => {
                        tree_opt = Some(hash);
                        tail = &tail[46..tail.len()];
                    },
                    Err(e) => {
                        return Err(e);
                    },
                }
            } else if tail.len() >= 48 && starts_with(tail, parent.as_slice()) {
                match Hash::from_hex(&tail[7..47]) {
                    Ok(hash) => {
                        proof {
                            assert(hash_views(parents@.push(hash)) =~= hash_views(parents@).push(
                                hash@,
                            ));
                        }
                        parents.push(hash);
                        tail = &tail[48..tail.len()];
                    },
                    Err(e) => {
                        return Err(e);
                    },
                }
            } else {
                let text = if tail[0] == LF {
                    &tail[1..tail.len()]
                } else {
                    tail
                };
                match utf8(text) {
                    Ok(s) => {
                        msg = s;
                        tail = &tail[tail.len()..tail.len()];
                    },
                    Err(e) => {
                        return Err(e);
                    },
                }
            }
        }
        let tree = match tree_opt {
            Some(t) => t,
            None => {
                return Err(
                    Error::MalformedCommit { field: CommitField::Tree, fault: FieldFault::Missing },
                );
            },
        };
        let author = match author_opt {
            Some(a) => a,
            None => {
                return Err(
                    Error::MalformedCommit {
                        field: CommitField::Author,
                        fault: FieldFault::Missing,
                    },
                );
            },
        };
        let committer = match committer_opt {
            Some(c) => c,
            None => {
                return Err(
                    Error::MalformedCommit {
                        field: CommitField::Committer,
                        fault: FieldFault::Missing,
                    },
                );
            },
        };
        proof {
            lemma_parsed_commit_wf(body@);
        }
        Ok(Commit { tree, parents, author, committer, message: msg })
    }

    /// The body of the commit: tree, parents, author, committer, an
    /// empty line, and the message.
    pub fn body(&self) -> (res: Vec<u8>)
        ensures
            res@ == commit_body(self@),
    {
        let mut body: Vec<u8> = Vec::new();
        let tree = tree_word();
        let parent = parent_word();
        let author = author_word();
        let committer = committer_word();
        append_bytes(&mut body, tree.as_slice());
        body.push(SPACE);
        let digits = self.tree.hex_digits();
        append_bytes(&mut body, digits.as_slice());
        body.push(LF);
        let ghost head = body@;
        let mut i: usize = 0;
        assert(hash_views(self.parents@).take(0) =~= Seq::<Seq<u8>>::empty());
        assert(body@ =~= head + parent_lines(hash_views(self.parents@).take(0)));
        while i < self.parents.len()
            invariant
                i <= self.parents@.len(),
                parent@ == word_parent(),
                body@ == head + parent_lines(hash_views(self.parents@).take(i as int)),
            decreases self.parents@.len() - i,
        {
            proof {
                let views = hash_views(self.parents@);
                lemma_parent_lines_push(views.take(i as int), views[i as int]);
                assert(views.take(i + 1) =~= views.take(i as int).push(views[i as int]));
            }
            let ghost before = body@;
            append_bytes(&mut body, parent.as_slice());
            body.push(SPACE);
            let digits = self.parents[i].hex_digits();
            append_bytes(&mut body, digits.as_slice());
            body.push(LF);
            assert(body@ =~= before + parent_line(self.parents@[i as int]@));
            assert(body@ =~= head + parent_lines(hash_views(self.parents@).take(i + 1)));
            i += 1;
        }
        assert(hash_views(self.parents@).take(i as int) =~= hash_views(self.parents@));
        append_bytes(&mut body, author.as_slice());
        body.push(SPACE);
        let record = self.author.pack_bytes();
        append_bytes(&mut body, record.as_slice());
        body.push(LF);
        append_bytes(&mut body, committer.as_slice());
        body.push(SPACE);
        let record = self.committer.pack_bytes();
        append_bytes(&mut body, record.as_slice());
        body.push(LF);
        body.push(LF);
        append_bytes(&mut body, self.message.as_str().as_bytes());
        assert(body@ =~= commit_body(self@));
        body
    }

    /// The canonical bytes of the commit.
    pub fn pack(&self) -> (res: Vec<u8>)
        ensures
            res@ == canonical(ObjectView::Commit(self@)),
    {
        let body = self.body();
        frame(Type::Commit, body.as_slice())
    }

    /// The hash of the commit.
    pub fn hash(&self) -> (res: Hash)
        ensures
            res@ == sha1_of(canonical(ObjectView::Commit(self@))),
    {
        let bytes = self.pack();
        Hash::sum(bytes.as_slice())
    }

    /// The commit as a loose object.
    pub fn encode(&self) -> (res: Result<Vec<u8>, Error>)
        ensures
            match zlib_deflated(canonical(ObjectView::Commit(self@))) {
                Some(stream) => res matches Ok(out) && out@ == stream && zlib_inflated(out@)
                    == Some(canonical(ObjectView::Commit(self@))),
                None => res == Err::<Vec<u8>, Error>(Error::CompressFailed),
            },
    {
        let bytes = self.pack();
        encode(bytes.as_slice())
    }

    /// A copy of the commit.
    pub fn duplicate(&self) -> (res: Commit)
        ensures
            res@ == self@,
    {
        let mut parents: Vec<Hash> = Vec::new();
        let mut i: usize = 0;
        while i < self.parents.len()
            invariant
                i <= self.parents@.len(),
                parents@.len() == i,
                forall|j: int| 0 <= j < i ==> parents@[j]@ == self.parents@[j]@,
            decreases self.parents@.len() - i,
        {
            parents.push(self.parents[i]);
            i += 1;
        }
        assert(hash_views(parents@) =~= hash_views(self.parents@));
        proof {
            use_type_invariant(self);
        }
        Commit {
            tree: self.tree,
            parents,
            author: self.author.duplicate(),
            committer: self.committer.duplicate(),
            message: self.message.clone(),
        }
    }
}

/// Any one of the three kinds of object.
#[derive(Debug, PartialEq, Eq)]
pub enum Object {
    Blob(Blob),
    Tree(Tree),
    Commit(Commit),
}

impl View for Object {
    type V = ObjectView;

    open spec fn view(&self) -> ObjectView {
        match self {
            Object::Blob(b) => ObjectView::Blob(b@),
            Object::Tree(t) => ObjectView::Tree(t@),
            Object::Commit(c) => ObjectView::Commit(c@),
        }
    }
}

impl Object {
    /// The kind of the object.
    pub fn kind(&self) -> (res: Type)
        ensures
            res == kind_of(self@),
    {
        match self {
            Object::Blob(_) => Type::Blob,
            Object::Tree(_) => Type::Tree,
            Object::Commit(_) => Type::Commit,
        }
    }

    /// The body of the object: its canonical bytes without the header.
    pub fn body(&self) -> (res: Vec<u8>)
        ensures
            res@ == body_of(self@),
    {
        match self {
            Object::Blob(b) => copy_bytes(&b.data),
            Object::Tree(t) => t.body(),
            Object::Commit(c) => c.body(),
        }
    }

    /// The canonical bytes of the object: `<type> <size>\0<body>`. They
    /// denote the object again.
    pub fn pack(&self) -> (res: Vec<u8>)
        ensures
            res@ == canonical(self@),
            spec_parse_object(res@) == Ok::<ObjectView, Error>(self@),
            wf_object(self@),
    {
        let res = match self {
            Object::Blob(b) => b.pack(),
            Object::Tree(t) => {
                proof {
                    use_type_invariant(t);
                }
                t.pack()
            },
            Object::Commit(c) => {
                proof {
                    use_type_invariant(c);
                }
                c.pack()
            },
        };
        let len = res.len();
        proof {
            assert(res@ == header_bytes(kind_of(self@), body_of(self@).len()) + seq![NUL]
                + body_of(self@));
            assert(body_of(self@).len() <= len);
            lemma_round_trip(self@);
        }
        res
    }

    /// The hash of the object: the SHA-1 digest of its canonical bytes.
    pub fn hash(&self) -> (res: Hash)
        ensures
            res@ == sha1_of(canonical(self@)),
    {
        let bytes = self.pack();
        Hash::sum(bytes.as_slice())
    }

    /// The object as a loose object: its canonical bytes, compressed.
    /// What comes out decodes to the object again, under its hash.
    pub fn encode(&self) -> (res: Result<Vec<u8>, Error>)
        ensures
            match zlib_deflated(canonical(self@)) {
                Some(stream) => res matches Ok(out) && out@ == stream && zlib_inflated(out@)
                    == Some(canonical(self@)) && spec_decode_loose(out@) == Ok::<
                    (Seq<u8>, ObjectView),
                    Error,
                >((sha1_of(canonical(self@)), self@)),
                None => res == Err::<Vec<u8>, Error>(Error::CompressFailed),
            },
    {
        let bytes = self.pack();
        encode(bytes.as_slice())
    }

    /// A copy of the object.
    pub fn duplicate(&self) -> (res: Object)
        ensures
            res@ == self@,
    {
        match self {
            Object::Blob(b) => Object::Blob(b.duplicate()),
            Object::Tree(t) => Object::Tree(t.duplicate()),
            Object::Commit(c) => Object::Commit(c.duplicate()),
        }
    }
}

/// The views of a run of tree entries.
pub open spec fn entry_views(s: Seq<TreeEntry>) -> Seq<TreeEntryView> {
    Seq::new(s.len(), |i: int| s[i]@)
}

/// The views of a run of hashes.
pub open spec fn hash_views(s: Seq<Hash>) -> Seq<Seq<u8>> {
    Seq::new(s.len(), |i: int| s[i]@)
}

/// The view of an optional hash.
pub open spec fn opt_hash_view(h: Option<Hash>) -> Option<Seq<u8>> {
    match h {
        Some(h) => Some(h@),
        None => None,
    }
}

/// The view of an optional record.
pub open spec fn opt_record_view(r: Option<Record>) -> Option<RecordView> {
    match r {
        Some(r) => Some(r@),
        None => None,
    }
}

/// A result that holds the value, or reports the failure, that `expected` names.
pub open spec fn agrees<T: View>(res: Result<T, Error>, expected: Result<T::V, Error>) -> bool {
    match expected {
        Ok(v) => res matches Ok(t) && t@ == v,
        Err(e) => res matches Err(f) && f == e,
    }
}

/// An optional value that is present, with the view that `expected` names, exactly where `expected` is.
pub open spec fn agrees_opt<T: View>(res: Option<T>, expected: Option<T::V>) -> bool {
    match expected {
        Some(v) => res matches Some(t) && t@ == v,
        None => res is None,
    }
}

/// What a loose object denotes: the hash of its inflated bytes, and the
/// object that those bytes are the canonical encoding of.
pub open spec fn spec_decode_loose(compressed: Seq<u8>) -> Result<(Seq<u8>, ObjectView), Error> {
    match zlib_inflated(compressed) {
        Some(raw) => match spec_parse_object(raw) {
            Ok(o) => Ok((sha1_of(raw), o)),
            Err(e) => Err(e),
        },
        None => Err(Error::CorruptStream),
    }
}

/// Reads the body of an object of kind `typp`.
pub fn parse_body(typp: Type, body: &[u8]) -> (res: Result<Object, Error>)
    ensures
        agrees(res, spec_parse_body(typp, body@)),
{
    match typp {
        Type::Blob => match Blob::parse(body) {
            Ok(b) => Ok(Object::Blob(b)),
            Err(e) => Err(e),
        },
        Type::Tree => match Tree::parse(body) {
            Ok(t) => Ok(Object::Tree(t)),
            Err(e) => Err(e),
        },
        Type::Commit => match Commit::parse(body) {
            Ok(c) => Ok(Object::Commit(c)),
            Err(e) => Err(e),
        },
    }
}

/// Reads an object from its canonical bytes: `<type> <size>\0<body>`.
pub fn parse_object(obj: &[u8]) -> (res: Result<Object, Error>)
    ensures
        agrees(res, spec_parse_object(obj@)),
{
    let nul = position(obj, NUL);
    if nul >= obj.len() {
        return Err(Error::UnrecognizedHeader);
    }
    let header = match Header::parse(&obj[0..nul]) {
        Ok(h) => h,
        Err(e) => {
            return Err(e);
        },
    };
    let body = &obj[nul + 1..obj.len()];
    if body.len() != header.size {
        return Err(Error::SizeMismatch);
    }
    parse_body(header.typp, body)
}

/// Decodes a loose object: inflates it, hashes what comes out, and reads
/// that as an object.
pub fn deflate(compressed: &[u8]) -> (res: Result<(Hash, Object), Error>)
    ensures
        match spec_decode_loose(compressed@) {
            Ok((h, o)) => res matches Ok((hash, obj)) && hash@ == h && obj@ == o,
            Err(e) => res matches Err(f) && f == e,
        },
{
    let raw = match decode(compressed) {
        Ok(v) => v,
        Err(e) => {
            return Err(e);
        },
    };
    let hash = Hash::sum(raw.as_slice());
    match parse_object(raw.as_slice()) {
        Ok(obj) => Ok((hash, obj)),
        Err(e) => Err(e),
    }
}

fn blob_word() -> (r: [u8; 4])
    ensures
        r@ == word_blob(),
{
    let r: [u8; 4] = ['b' as u8, 'l' as u8, 'o' as u8, 'b' as u8];
    assert(r@ =~= word_blob());
    r
}

fn tree_word() -> (r: [u8; 4])
    ensures
        r@ == word_tree(),
{
    let r: [u8; 4] = ['t' as u8, 'r' as u8, 'e' as u8, 'e' as u8];
    assert(r@ =~= word_tree());
    r
}

fn commit_word() -> (r: [u8; 6])
    ensures
        r@ == word_commit(),
{
    let r: [u8; 6] = ['c' as u8, 'o' as u8, 'm' as u8, 'm' as u8, 'i' as u8, 't' as u8];
    assert(r@ =~= word_commit());
    r
}

fn parent_word() -> (r: [u8; 6])
    ensures
        r@ == word_parent(),
{
    let r: [u8; 6] = ['p' as u8, 'a' as u8, 'r' as u8, 'e' as u8, 'n' as u8, 't' as u8];
    assert(r@ =~= word_parent());
    r
}

fn author_word() -> (r: [u8; 6])
    ensures
        r@ == word_author(),
{
    let r: [u8; 6] = ['a' as u8, 'u' as u8, 't' as u8, 'h' as u8, 'o' as u8, 'r' as u8];
    assert(r@ =~= word_author());
    r
}

fn committer_word() -> (r: [u8; 9])
    ensures
        r@ == word_committer(),
{
    let r: [u8; 9] = [
        'c' as u8,
        'o' as u8,
        'm' as u8,
        'm' as u8,
        'i' as u8,
        't' as u8,
        't' as u8,
        'e' as u8,
        'r' as u8,
    ];
    assert(r@ =~= word_committer());
    r
}

/// Reads the record of an `author` or `committer` line whose keyword
/// and space take `skip` bytes; gives the length of the line too.
fn record_line(tail: &[u8], skip: usize) -> (res: Option<(Record, usize)>)
    ensures
        match spec_record_line(tail@, skip as int) {
            Some((r, n)) => res matches Some((rec, m)) && rec@ == r && m == n,
            None => res is None,
        },
{
    let end = position(tail, LF);
    if end >= tail.len() || end < skip {
        return None;
    }
    match Record::parse(&tail[skip..end]) {
        Some(r) => Some((r, end + 1)),
        None => None,
    }
}

/// Puts the bytes of `src` at the end of `out`.
pub fn append_bytes(out: &mut Vec<u8>, src: &[u8])
    ensures
        final(out)@ == old(out)@ + src@,
{
    let mut i: usize = 0;
    while i < src.len()
        invariant
            i <= src@.len(),
            out@ == old(out)@ + src@.take(i as int),
        decreases src@.len() - i,
    {
        out.push(src[i]);
        assert(src@.take(i + 1) =~= src@.take(i as int).push(src@[i as int]));
        i += 1;
    }
    assert(src@.take(i as int) =~= src@);
}

/// Puts a header line and a `NUL` before a body.
pub fn frame(typp: Type, body: &[u8]) -> (res: Vec<u8>)
    ensures
        res@ == framed(typp, body@),
{
    let mut res: Vec<u8> = Vec::new();
    match typp {
        Type::Blob => {
            let w = blob_word();
            append_bytes(&mut res, w.as_slice());
        },
        Type::Tree => {
            let w = tree_word();
            append_bytes(&mut res, w.as_slice());
        },
        Type::Commit => {
            let w = commit_word();
            append_bytes(&mut res, w.as_slice());
        },
    }
    res.push(SPACE);
    let digits = format_decimal(body.len() as u64);
    append_bytes(&mut res, digits.as_slice());
    res.push(NUL);
    append_bytes(&mut res, body);
    assert(res@ =~= framed(typp, body@));
    res
}

/// A copy of a run of bytes.
pub fn copy_bytes(v: &Vec<u8>) -> (res: Vec<u8>)
    ensures
        res@ == v@,
{
    slice_to_vec(v.as_slice())
}

} // verus!
