//! The object format as mathematics: what canonical bytes denote, and
//! the bytes that denote an object.

use crate::error::CommitField;
use crate::error::Error;
use crate::error::FieldFault;
use crate::object::Header;
use crate::object::Type;
use crate::text::{
    ascii_chars, decimal_digits, find_byte, hex_bytes, hex_text, is_hex_text, no_byte,
    spec_parse_decimal,
};
use vstd::prelude::*;
use vstd::utf8::*;

verus! {

/// The byte that ends a header and a tree entry's name.
pub const NUL: u8 = 0;

/// The byte that ends a line of a commit.
pub const LF: u8 = 10;

/// The byte that separates the fields of a line.
pub const SPACE: u8 = 32;

/// The byte that opens an e-mail address.
pub const LT: u8 = 60;

/// The byte that closes an e-mail address.
pub const GT: u8 = 62;

/// A tree entry as mathematics.
pub struct TreeEntryView {
    pub mode: Seq<char>,
    pub name: Seq<char>,
    pub hash: Seq<u8>,
}

/// A record as mathematics.
pub struct RecordView {
    pub name: Seq<char>,
    pub email: Seq<char>,
    pub time: u64,
    pub time_zone: Seq<char>,
}

/// A commit as mathematics.
pub struct CommitView {
    pub tree: Seq<u8>,
    pub parents: Seq<Seq<u8>>,
    pub author: RecordView,
    pub committer: RecordView,
    pub message: Seq<char>,
}

/// An object as mathematics.
pub enum ObjectView {
    Blob(Seq<u8>),
    Tree(Seq<TreeEntryView>),
    Commit(CommitView),
}

/// The word `blob`.
pub open spec fn word_blob() -> Seq<u8> {
    seq!['b' as u8, 'l' as u8, 'o' as u8, 'b' as u8]
}

/// The word `tree`.
pub open spec fn word_tree() -> Seq<u8> {
    seq!['t' as u8, 'r' as u8, 'e' as u8, 'e' as u8]
}

/// The word `commit`.
pub open spec fn word_commit() -> Seq<u8> {
    seq!['c' as u8, 'o' as u8, 'm' as u8, 'm' as u8, 'i' as u8, 't' as u8]
}

/// The word `parent`.
pub open spec fn word_parent() -> Seq<u8> {
    seq!['p' as u8, 'a' as u8, 'r' as u8, 'e' as u8, 'n' as u8, 't' as u8]
}

/// The word `author`.
pub open spec fn word_author() -> Seq<u8> {
    seq!['a' as u8, 'u' as u8, 't' as u8, 'h' as u8, 'o' as u8, 'r' as u8]
}

/// The word `committer`.
pub open spec fn word_committer() -> Seq<u8> {
    seq![
        'c' as u8,
        'o' as u8,
        'm' as u8,
        'm' as u8,
        'i' as u8,
        't' as u8,
        't' as u8,
        'e' as u8,
        'r' as u8,
    ]
}

/// The word that names a kind of object in a header.
pub open spec fn type_word(t: Type) -> Seq<u8> {
    match t {
        Type::Blob => word_blob(),
        Type::Tree => word_tree(),
        Type::Commit => word_commit(),
    }
}

/// The kind of object that a word names.
pub open spec fn type_of_word(s: Seq<u8>) -> Option<Type> {
    if s == word_blob() {
        Some(Type::Blob)
    } else if s == word_tree() {
        Some(Type::Tree)
    } else if s == word_commit() {
        Some(Type::Commit)
    } else {
        None
    }
}

/// What a header line declares: a kind, a space, and a size in decimal digits that fits a `usize`.
pub open spec fn spec_parse_header(s: Seq<u8>) -> Option<Header> {
    let sp = find_byte(s, SPACE);
    if sp >= s.len() {
        None
    } else {
        match (type_of_word(s.take(sp)), spec_parse_decimal(s.skip(sp + 1))) {
            (Some(t), Some(n)) => if n <= usize::MAX {
                Some(Header { typp: t, size: n as usize })
            } else {
                None
            },
            _ => None,
        }
    }
}

/// The header line of an object of kind `t` with a body of `size` bytes.
pub open spec fn header_bytes(t: Type, size: nat) -> Seq<u8> {
    type_word(t) + seq![SPACE] + decimal_digits(size)
}

/// What `<name> <<email>> <timestamp> <tz>` denotes. The name ends one
/// byte before the first `<`, the address lies between that and the first
/// `>`, the timestamp is the decimal digits that start two bytes after
/// the `>` and run up to the next space, and the time zone is the rest.
/// A record holds no line feed.
pub open spec fn spec_parse_record(s: Seq<u8>) -> Option<RecordView> {
    let l1 = find_byte(s, LT);
    let l2 = find_byte(s, GT);
    if l1 >= s.len() || l2 >= s.len() || l1 < 1 || l2 < l1 + 1 || l2 + 2 > s.len() || find_byte(
        s,
        LF,
    ) < s.len() {
        None
    } else {
        let name = s.take(l1 - 1);
        let email = s.subrange(l1 + 1, l2);
        let rest = s.skip(l2 + 2);
        let l3 = find_byte(rest, SPACE);
        if l3 >= rest.len() {
            None
        } else {
            let zone = rest.skip(l3 + 1);
            match spec_parse_decimal(rest.take(l3)) {
                Some(time) => if valid_utf8(name) && valid_utf8(email) && valid_utf8(zone) {
                    Some(
                        RecordView {
                            name: decode_utf8(name),
                            email: decode_utf8(email),
                            time,
                            time_zone: decode_utf8(zone),
                        },
                    )
                } else {
                    None
                },
                None => None,
            }
        }
    }
}

/// A record as it stands in a line of a commit.
pub open spec fn record_bytes(r: RecordView) -> Seq<u8> {
    encode_utf8(r.name) + seq![SPACE, LT] + encode_utf8(r.email) + seq![GT, SPACE]
        + decimal_digits(r.time as nat) + seq![SPACE] + encode_utf8(r.time_zone)
}

/// The first entry that `s` starts with, and the number of bytes it
/// takes: a mode up to the first space, a name up to the first `NUL`,
/// and 20 bytes of hash.
pub open spec fn spec_tree_entry(s: Seq<u8>) -> Result<(TreeEntryView, int), Error> {
    let nul = find_byte(s, NUL);
    let sp = find_byte(s, SPACE);
    if nul >= s.len() || s.len() - nul < 21 || sp >= nul {
        Err(Error::TruncatedTreeEntry)
    } else if !valid_utf8(s.take(sp)) || !valid_utf8(s.subrange(sp + 1, nul)) {
        Err(Error::InvalidUtf8)
    } else {
        Ok(
            (
                TreeEntryView {
                    mode: decode_utf8(s.take(sp)),
                    name: decode_utf8(s.subrange(sp + 1, nul)),
                    hash: s.subrange(nul + 1, nul + 21),
                },
                nul + 21,
            ),
        )
    }
}

/// `first` put before the entries of `rest`, or the failure of `rest`.
pub open spec fn prepend_entries(
    first: Seq<TreeEntryView>,
    rest: Result<Seq<TreeEntryView>, Error>,
) -> Result<Seq<TreeEntryView>, Error> {
    match rest {
        Ok(more) => Ok(first + more),
        Err(e) => Err(e),
    }
}

/// The entries that the body of a tree holds, one after the other until
/// the body is used up.
pub open spec fn spec_parse_tree(s: Seq<u8>) -> Result<Seq<TreeEntryView>, Error>
    decreases s.len(),
{
    if s.len() == 0 {
        Ok(Seq::empty())
    } else {
        match spec_tree_entry(s) {
            Ok((entry, n)) => if 0 < n <= s.len() {
                prepend_entries(seq![entry], spec_parse_tree(s.skip(n)))
            } else {
                Err(Error::TruncatedTreeEntry)
            },
            Err(e) => Err(e),
        }
    }
}

/// A tree entry as it stands in the body of a tree.
pub open spec fn tree_entry_bytes(e: TreeEntryView) -> Seq<u8> {
    encode_utf8(e.mode) + seq![SPACE] + encode_utf8(e.name) + seq![NUL] + e.hash
}

/// The body of a tree: its entries in order.
pub open spec fn tree_body(entries: Seq<TreeEntryView>) -> Seq<u8>
    decreases entries.len(),
{
    if entries.len() == 0 {
        Seq::empty()
    } else {
        tree_entry_bytes(entries[0]) + tree_body(entries.drop_first())
    }
}

/// What has been read of a commit so far.
pub struct CommitParts {
    pub tree: Option<Seq<u8>>,
    pub parents: Seq<Seq<u8>>,
    pub author: Option<RecordView>,
    pub committer: Option<RecordView>,
    pub message: Seq<char>,
}

/// A commit of which nothing has been read.
pub open spec fn no_parts() -> CommitParts {
    CommitParts {
        tree: None,
        parents: Seq::empty(),
        author: None,
        committer: None,
        message: Seq::empty(),
    }
}

/// The failure that names a header line of a commit.
pub open spec fn commit_fault(field: CommitField, fault: FieldFault) -> Error {
    Error::MalformedCommit { field, fault }
}

/// `s` starts like an `author` line.
pub open spec fn is_author_line(s: Seq<u8>) -> bool {
    s.len() >= 7 && s.take(6) == word_author()
}

/// `s` starts like a `committer` line.
pub open spec fn is_committer_line(s: Seq<u8>) -> bool {
    s.len() >= 10 && s.take(9) == word_committer()
}

/// `s` starts like a `tree` line.
pub open spec fn is_tree_line(s: Seq<u8>) -> bool {
    s.len() >= 46 && s.take(4) == word_tree()
}

/// `s` starts like a `parent` line.
pub open spec fn is_parent_line(s: Seq<u8>) -> bool {
    s.len() >= 48 && s.take(6) == word_parent()
}

/// The record of an `author` or `committer` line whose keyword and
/// space take `skip` bytes: what stands between them and the first line
/// feed.
pub open spec fn spec_record_line(s: Seq<u8>, skip: int) -> Option<(RecordView, int)> {
    let end = find_byte(s, LF);
    if end >= s.len() || end < skip {
        None
    } else {
        match spec_parse_record(s.subrange(skip, end)) {
            Some(r) => Some((r, end + 1)),
            None => None,
        }
    }
}

/// Reads the lines of a commit from `s` on, into `acc`. Each line is
/// told by the word it starts with; what starts with none of the four
/// words is the message, after the line feed that sets it apart where
/// there is one.
pub open spec fn spec_commit_lines(s: Seq<u8>, acc: CommitParts) -> Result<CommitParts, Error>
    decreases s.len(),
{
    if s.len() == 0 {
        Ok(acc)
    } else if is_author_line(s) {
        if acc.author is Some {
            Err(commit_fault(CommitField::Author, FieldFault::Duplicate))
        } else {
            match spec_record_line(s, 7) {
                Some((r, n)) => if 0 < n <= s.len() {
                    spec_commit_lines(s.skip(n), CommitParts { author: Some(r), ..acc })
                } else {
                    Err(commit_fault(CommitField::Author, FieldFault::Malformed))
                },
                None => Err(commit_fault(CommitField::Author, FieldFault::Malformed)),
            }
        }
    } else if is_committer_line(s) {
        if acc.committer is Some {
            Err(commit_fault(CommitField::Committer, FieldFault::Duplicate))
        } else {
            match spec_record_line(s, 10) {
                Some((r, n)) => if 0 < n <= s.len() {
                    spec_commit_lines(s.skip(n), CommitParts { committer: Some(r), ..acc })
                } else {
                    Err(commit_fault(CommitField::Committer, FieldFault::Malformed))
                },
                None => Err(commit_fault(CommitField::Committer, FieldFault::Malformed)),
            }
        }
    } else if is_tree_line(s) {
        if acc.tree is Some {
            Err(commit_fault(CommitField::Tree, FieldFault::Duplicate))
        } else if !is_hex_text(s.subrange(5, 45)) {
            Err(Error::MalformedHash)
        } else {
            spec_commit_lines(
                s.skip(46),
                CommitParts { tree: Some(hex_bytes(s.subrange(5, 45))), ..acc },
            )
        }
    } else if is_parent_line(s) {
        if !is_hex_text(s.subrange(7, 47)) {
            Err(Error::MalformedHash)
        } else {
            spec_commit_lines(
                s.skip(48),
                CommitParts { parents: acc.parents.push(hex_bytes(s.subrange(7, 47))), ..acc },
            )
        }
    } else {
        let text = if s[0] == LF {
            s.skip(1)
        } else {
            s
        };
        if valid_utf8(text) {
            Ok(CommitParts { message: decode_utf8(text), ..acc })
        } else {
            Err(Error::InvalidUtf8)
        }
    }
}

/// The commit that the parts make, where none of the three single lines is missing.
pub open spec fn commit_of_parts(p: CommitParts) -> Result<CommitView, Error> {
    if p.tree is None {
        Err(commit_fault(CommitField::Tree, FieldFault::Missing))
    } else if p.author is None {
        Err(commit_fault(CommitField::Author, FieldFault::Missing))
    } else if p.committer is None {
        Err(commit_fault(CommitField::Committer, FieldFault::Missing))
    } else {
        Ok(
            CommitView {
                tree: p.tree->0,
                parents: p.parents,
                author: p.author->0,
                committer: p.committer->0,
                message: p.message,
            },
        )
    }
}

/// The commit that a body denotes.
pub open spec fn spec_parse_commit(s: Seq<u8>) -> Result<CommitView, Error> {
    match spec_commit_lines(s, no_parts()) {
        Ok(p) => commit_of_parts(p),
        Err(e) => Err(e),
    }
}

/// The `parent` lines of a commit, in order.
pub open spec fn parent_lines(parents: Seq<Seq<u8>>) -> Seq<u8>
    decreases parents.len(),
{
    if parents.len() == 0 {
        Seq::empty()
    } else {
        word_parent() + seq![SPACE] + hex_text(parents[0]) + seq![LF] + parent_lines(
            parents.drop_first(),
        )
    }
}

/// The body of a commit: the tree, the parents, the author, the
/// committer, an empty line, and the message.
pub open spec fn commit_body(c: CommitView) -> Seq<u8> {
    word_tree() + seq![SPACE] + hex_text(c.tree) + seq![LF] + parent_lines(c.parents)
        + word_author() + seq![SPACE] + record_bytes(c.author) + seq![LF] + word_committer()
        + seq![SPACE] + record_bytes(c.committer) + seq![LF] + seq![LF] + encode_utf8(c.message)
}

/// The kind of an object.
pub open spec fn kind_of(o: ObjectView) -> Type {
    match o {
        ObjectView::Blob(_) => Type::Blob,
        ObjectView::Tree(_) => Type::Tree,
        ObjectView::Commit(_) => Type::Commit,
    }
}

/// The body of an object: what follows its header.
pub open spec fn body_of(o: ObjectView) -> Seq<u8> {
    match o {
        ObjectView::Blob(data) => data,
        ObjectView::Tree(entries) => tree_body(entries),
        ObjectView::Commit(c) => commit_body(c),
    }
}

/// A header line, a `NUL`, and a body.
pub open spec fn framed(t: Type, body: Seq<u8>) -> Seq<u8> {
    header_bytes(t, body.len()) + seq![NUL] + body
}

/// The canonical encoding of an object, over which its hash is taken.
pub open spec fn canonical(o: ObjectView) -> Seq<u8> {
    framed(kind_of(o), body_of(o))
}

/// The object of kind `t` that a body denotes.
pub open spec fn spec_parse_body(t: Type, body: Seq<u8>) -> Result<ObjectView, Error> {
    match t {
        Type::Blob => Ok(ObjectView::Blob(body)),
        Type::Tree => match spec_parse_tree(body) {
            Ok(entries) => Ok(ObjectView::Tree(entries)),
            Err(e) => Err(e),
        },
        Type::Commit => match spec_parse_commit(body) {
            Ok(c) => Ok(ObjectView::Commit(c)),
            Err(e) => Err(e),
        },
    }
}

/// The object that canonical bytes denote: a header up to the first
/// `NUL`, and a body of the declared length.
pub open spec fn spec_parse_object(s: Seq<u8>) -> Result<ObjectView, Error> {
    let nul = find_byte(s, NUL);
    if nul >= s.len() {
        Err(Error::UnrecognizedHeader)
    } else {
        match spec_parse_header(s.take(nul)) {
            Some(h) => if s.len() - (nul + 1) == h.size {
                spec_parse_body(h.typp, s.skip(nul + 1))
            } else {
                Err(Error::SizeMismatch)
            },
            None => Err(Error::UnrecognizedHeader),
        }
    }
}

/// The body of a tree grows by the bytes of an entry put at its end.
pub proof fn lemma_tree_body_push(entries: Seq<TreeEntryView>, e: TreeEntryView)
    ensures
        tree_body(entries.push(e)) == tree_body(entries) + tree_entry_bytes(e),
    decreases entries.len(),
{
    let all = entries.push(e);
    if entries.len() == 0 {
        assert(all.drop_first() =~= Seq::<TreeEntryView>::empty());
        assert(tree_body(all) =~= tree_entry_bytes(e) + tree_body(all.drop_first()));
        assert(tree_body(all) =~= tree_body(entries) + tree_entry_bytes(e));
    } else {
        lemma_tree_body_push(entries.drop_first(), e);
        assert(all.drop_first() =~= entries.drop_first().push(e));
        assert(tree_body(all) =~= tree_body(entries) + tree_entry_bytes(e));
    }
}

/// One `parent` line.
pub open spec fn parent_line(hash: Seq<u8>) -> Seq<u8> {
    word_parent() + seq![SPACE] + hex_text(hash) + seq![LF]
}

/// The `parent` lines grow by the line of a parent put at their end.
pub proof fn lemma_parent_lines_push(parents: Seq<Seq<u8>>, p: Seq<u8>)
    ensures
        parent_lines(parents.push(p)) == parent_lines(parents) + parent_line(p),
    decreases parents.len(),
{
    let all = parents.push(p);
    if parents.len() == 0 {
        assert(all.drop_first() =~= Seq::<Seq<u8>>::empty());
        assert(parent_lines(all) =~= parent_line(p) + parent_lines(all.drop_first()));
        assert(parent_lines(all) =~= parent_lines(parents) + parent_line(p));
    } else {
        lemma_parent_lines_push(parents.drop_first(), p);
        assert(all.drop_first() =~= parents.drop_first().push(p));
        assert(parent_lines(all) =~= parent_lines(parents) + parent_line(p));
    }
}

/// A record as text.
pub open spec fn record_text(r: RecordView) -> Seq<char> {
    r.name + seq![' ', '<'] + r.email + seq!['>', ' '] + ascii_chars(
        decimal_digits(r.time as nat),
    ) + seq![' '] + r.time_zone
}

/// A tree entry that its bytes denote again: the mode holds no space
/// and no `NUL`, the name no `NUL`, and the hash is 20 bytes.
pub open spec fn wf_entry(e: TreeEntryView) -> bool {
    &&& no_byte(encode_utf8(e.mode), SPACE)
    &&& no_byte(encode_utf8(e.mode), NUL)
    &&& no_byte(encode_utf8(e.name), NUL)
    &&& e.hash.len() == 20
}

/// A record that its bytes denote again: the name holds none of `<`,
/// `>` and line feed, the address no `>` and no line feed, the time zone
/// no line feed.
pub open spec fn wf_record(r: RecordView) -> bool {
    &&& no_byte(encode_utf8(r.name), LT)
    &&& no_byte(encode_utf8(r.name), GT)
    &&& no_byte(encode_utf8(r.name), LF)
    &&& no_byte(encode_utf8(r.email), GT)
    &&& no_byte(encode_utf8(r.email), LF)
    &&& no_byte(encode_utf8(r.time_zone), LF)
}

/// A commit that its bytes denote again: hashes of 20 bytes, and two
/// records that their bytes denote again.
pub open spec fn wf_commit(c: CommitView) -> bool {
    &&& c.tree.len() == 20
    &&& forall|i: int| 0 <= i < c.parents.len() ==> (#[trigger] c.parents[i]).len() == 20
    &&& wf_record(c.author)
    &&& wf_record(c.committer)
}

/// An object that its canonical bytes denote again.
pub open spec fn wf_object(o: ObjectView) -> bool {
    match o {
        ObjectView::Blob(_) => true,
        ObjectView::Tree(entries) => forall|i: int|
            0 <= i < entries.len() ==> wf_entry(#[trigger] entries[i]),
        ObjectView::Commit(c) => wf_commit(c),
    }
}

/// The mode of a directory: `40000`.
pub open spec fn dir_mode() -> Seq<u8> {
    seq!['4' as u8, '0' as u8, '0' as u8, '0' as u8, '0' as u8]
}

/// What an entry is ordered by: the bytes of its name, and after them
/// a `/` where the entry is a directory.
pub open spec fn sort_key(e: TreeEntryView) -> Seq<u8> {
    if encode_utf8(e.mode) == dir_mode() {
        encode_utf8(e.name).push('/' as u8)
    } else {
        encode_utf8(e.name)
    }
}

/// The entries stand in the canonical order: no entry comes before the
/// one just above it.
pub open spec fn tree_sorted(entries: Seq<TreeEntryView>) -> bool {
    forall|i: int|
        0 < i < entries.len() ==> crate::text::lex_le(
            sort_key(entries[i - 1]),
            sort_key(#[trigger] entries[i]),
        )
}

} // verus!
