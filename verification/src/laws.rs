//! What holds of the object format: an object is what its canonical
//! bytes denote.

use crate::error::Error;
use crate::format::{
    canonical, commit_body, framed, header_bytes, kind_of, body_of, no_parts, parent_line,
    parent_lines, record_bytes, spec_commit_lines, spec_parse_body, spec_parse_commit,
    spec_parse_header, spec_parse_object, spec_parse_record, spec_parse_tree,
    spec_record_line, spec_tree_entry, tree_body, tree_entry_bytes, type_of_word, type_word,
    wf_commit, wf_entry, wf_object, wf_record, word_author, word_blob, word_commit,
    word_committer, word_parent, word_tree, CommitParts, CommitView, ObjectView, RecordView,
    TreeEntryView, GT, LF, LT, NUL, SPACE,
};
use crate::object::sha1_of;
use crate::object::spec_decode_loose;
use crate::object::Header;
use crate::object::Type;
use crate::util::zlib_inflated;
use crate::text::{
    all_digits, decimal_digits, digits_value, find_byte, hex_bytes, hex_text, is_digit,
    is_hex_text, lemma_decimal_digits, lemma_digits_no_byte, lemma_find_byte_at,
    lemma_find_byte_past, lemma_hex_text, no_byte, spec_parse_decimal,
};
use vstd::prelude::*;
use vstd::utf8::*;

verus! {

/// The word for a kind holds neither a space nor a `NUL`, and names that kind.
pub proof fn lemma_type_word(t: Type)
    ensures
        no_byte(type_word(t), SPACE),
        no_byte(type_word(t), NUL),
        type_of_word(type_word(t)) == Some(t),
{
    assert(word_blob()[0] != word_tree()[0]);
    assert(word_blob()[0] != word_commit()[0]);
    assert(word_tree()[0] != word_commit()[0]);
}

/// A header line denotes the kind and the size that it was written for.
pub proof fn lemma_header_round_trip(t: Type, size: nat)
    requires
        size <= usize::MAX,
    ensures
        spec_parse_header(header_bytes(t, size)) == Some(Header { typp: t, size: size as usize }),
        no_byte(header_bytes(t, size), NUL),
{
    let word = type_word(t);
    let digits = decimal_digits(size);
    let s = header_bytes(t, size);
    lemma_type_word(t);
    lemma_decimal_digits(size);
    lemma_digits_no_byte(digits, NUL);
    assert(s =~= word + (seq![SPACE] + digits));
    lemma_find_byte_at(word, seq![SPACE] + digits, SPACE);
    assert(s.take(word.len() as int) =~= word);
    assert(s.skip(word.len() as int + 1) =~= digits);
    assert forall|i: int| 0 <= i < s.len() implies s[i] != NUL by {
        if i < word.len() {
            assert(s[i] == word[i]);
        } else if i > word.len() {
            assert(s[i] == digits[i - word.len() - 1]);
        }
    }
}

/// Framed bytes denote what the body denotes for the kind they name.
pub proof fn lemma_framed(t: Type, body: Seq<u8>)
    requires
        body.len() <= usize::MAX,
    ensures
        spec_parse_object(framed(t, body)) == spec_parse_body(t, body),
{
    let header = header_bytes(t, body.len());
    let s = framed(t, body);
    lemma_header_round_trip(t, body.len());
    assert(s =~= header + (seq![NUL] + body));
    lemma_find_byte_at(header, seq![NUL] + body, NUL);
    assert(s.take(header.len() as int) =~= header);
    assert(s.skip(header.len() as int + 1) =~= body);
}

/// The bytes of an entry, with anything after them, start with that entry.
pub proof fn lemma_tree_entry_round_trip(e: TreeEntryView, rest: Seq<u8>)
    requires
        wf_entry(e),
    ensures
        spec_tree_entry(tree_entry_bytes(e) + rest) == Ok::<(TreeEntryView, int), Error>(
            (e, tree_entry_bytes(e).len() as int),
        ),
{
    let mode = encode_utf8(e.mode);
    let name = encode_utf8(e.name);
    let s = tree_entry_bytes(e) + rest;
    let after_mode = seq![SPACE] + name + seq![NUL] + e.hash + rest;
    let after_name = seq![NUL] + e.hash + rest;
    assert(s =~= mode + after_mode);
    lemma_find_byte_at(mode, after_mode, SPACE);
    let head = mode + seq![SPACE] + name;
    assert(s =~= head + after_name);
    assert forall|i: int| 0 <= i < head.len() implies head[i] != NUL by {
        if i < mode.len() {
            assert(head[i] == mode[i]);
        } else if i > mode.len() {
            assert(head[i] == name[i - mode.len() - 1]);
        }
    }
    lemma_find_byte_at(head, after_name, NUL);
    let sp = mode.len() as int;
    let nul = head.len() as int;
    assert(s.take(sp) =~= mode);
    assert(s.subrange(sp + 1, nul) =~= name);
    assert(s.subrange(nul + 1, nul + 21) =~= e.hash);
    encode_utf8_valid_utf8(e.mode);
    encode_utf8_valid_utf8(e.name);
    encode_utf8_decode_utf8(e.mode);
    encode_utf8_decode_utf8(e.name);
}

/// The body of a tree denotes the entries that it was written for.
pub proof fn lemma_tree_round_trip(entries: Seq<TreeEntryView>)
    requires
        forall|i: int| 0 <= i < entries.len() ==> wf_entry(#[trigger] entries[i]),
    ensures
        spec_parse_tree(tree_body(entries)) == Ok::<Seq<TreeEntryView>, Error>(entries),
    decreases entries.len(),
{
    if entries.len() == 0 {
        assert(entries =~= Seq::empty());
    } else {
        let first = entries[0];
        let others = entries.drop_first();
        let s = tree_body(entries);
        let n = tree_entry_bytes(first).len() as int;
        assert(wf_entry(first));
        assert forall|i: int| 0 <= i < others.len() implies wf_entry(#[trigger] others[i]) by {
            assert(others[i] == entries[i + 1]);
        }
        lemma_tree_entry_round_trip(first, tree_body(others));
        lemma_tree_round_trip(others);
        assert(s.skip(n) =~= tree_body(others));
        assert(seq![first] + others =~= entries);
    }
}

/// The bytes of a record denote that record, and hold no line feed.
pub proof fn lemma_record_round_trip(r: RecordView)
    requires
        wf_record(r),
    ensures
        spec_parse_record(record_bytes(r)) == Some(r),
        no_byte(record_bytes(r), LF),
{
    let name = encode_utf8(r.name);
    let email = encode_utf8(r.email);
    let digits = decimal_digits(r.time as nat);
    let zone = encode_utf8(r.time_zone);
    let s = record_bytes(r);
    lemma_decimal_digits(r.time as nat);
    lemma_digits_no_byte(digits, SPACE);
    lemma_digits_no_byte(digits, LF);
    assert(is_digit(digits[0]));
    // the first `<`
    let before_lt = name + seq![SPACE];
    let from_lt = seq![LT] + email + seq![GT, SPACE] + digits + seq![SPACE] + zone;
    assert(s =~= before_lt + from_lt);
    assert forall|i: int| 0 <= i < before_lt.len() implies before_lt[i] != LT by {
        if i < name.len() {
            assert(before_lt[i] == name[i]);
        }
    }
    lemma_find_byte_at(before_lt, from_lt, LT);
    // the first `>`
    let before_gt = name + seq![SPACE, LT] + email;
    let from_gt = seq![GT, SPACE] + digits + seq![SPACE] + zone;
    assert(s =~= before_gt + from_gt);
    assert forall|i: int| 0 <= i < before_gt.len() implies before_gt[i] != GT by {
        if i < name.len() {
            assert(before_gt[i] == name[i]);
        } else if i >= name.len() + 2 {
            assert(before_gt[i] == email[i - name.len() - 2]);
        }
    }
    lemma_find_byte_at(before_gt, from_gt, GT);
    let l1 = name.len() as int + 1;
    let l2 = name.len() as int + 2 + email.len();
    assert(s.take(l1 - 1) =~= name);
    assert(s.subrange(l1 + 1, l2) =~= email);
    let rest = s.skip(l2 + 2);
    assert(rest =~= digits + (seq![SPACE] + zone));
    lemma_find_byte_at(digits, seq![SPACE] + zone, SPACE);
    let l3 = digits.len() as int;
    assert(rest.take(l3) =~= digits);
    assert(rest.skip(l3 + 1) =~= zone);
    assert(spec_parse_decimal(digits) == Some(r.time));
    assert forall|i: int| 0 <= i < s.len() implies s[i] != LF by {
        if i < name.len() {
            assert(s[i] == name[i]);
        } else if i < name.len() + 2 {
        } else if i < l2 {
            assert(s[i] == email[i - name.len() - 2]);
        } else if i < l2 + 2 {
        } else if i < l2 + 2 + digits.len() {
            assert(s[i] == digits[i - l2 - 2]);
        } else if i == l2 + 2 + digits.len() {
        } else {
            assert(s[i] == zone[i - l2 - 3 - digits.len()]);
        }
    }
    crate::text::lemma_find_byte_is(s, LF, s.len() as int);
    encode_utf8_valid_utf8(r.name);
    encode_utf8_valid_utf8(r.email);
    encode_utf8_valid_utf8(r.time_zone);
    encode_utf8_decode_utf8(r.name);
    encode_utf8_decode_utf8(r.email);
    encode_utf8_decode_utf8(r.time_zone);
}

/// The `parent` lines, with anything that starts with none of the four
/// words after them, are read as parents put after those already read.
pub proof fn lemma_parent_lines_read(parents: Seq<Seq<u8>>, rest: Seq<u8>, acc: CommitParts)
    requires
        forall|i: int| 0 <= i < parents.len() ==> (#[trigger] parents[i]).len() == 20,
    ensures
        spec_commit_lines(parent_lines(parents) + rest, acc) == spec_commit_lines(
            rest,
            CommitParts { parents: acc.parents + parents, ..acc },
        ),
    decreases parents.len(),
{
    if parents.len() == 0 {
        assert(parent_lines(parents) + rest =~= rest);
        assert(acc.parents + parents =~= acc.parents);
    } else {
        let p = parents[0];
        let others = parents.drop_first();
        let line = parent_line(p);
        let s = parent_lines(parents) + rest;
        let after = parent_lines(others) + rest;
        lemma_hex_text(p);
        assert(p.len() == 20);
        assert(line.len() == 48);
        assert(s =~= line + after);
        assert(s[0] == word_parent()[0]);
        assert(s.len() >= 7 ==> s.take(6)[0] == s[0]);
        assert(s.len() >= 10 ==> s.take(9)[0] == s[0]);
        assert(s.len() >= 46 ==> s.take(4)[0] == s[0]);
        assert(word_author()[0] != s[0]);
        assert(word_committer()[0] != s[0]);
        assert(word_tree()[0] != s[0]);
        assert(s.take(6) =~= word_parent());
        assert(s.subrange(7, 47) =~= hex_text(p));
        assert(s.skip(48) =~= after);
        let next = CommitParts { parents: acc.parents.push(p), ..acc };
        assert forall|i: int| 0 <= i < others.len() implies (#[trigger] others[i]).len() == 20 by {
            assert(others[i] == parents[i + 1]);
        }
        lemma_parent_lines_read(others, rest, next);
        assert(acc.parents.push(p) + others =~= acc.parents + parents);
    }
}

/// An `author` or `committer` line, with anything after it, gives its record and its length.
pub proof fn lemma_record_line(word: Seq<u8>, r: RecordView, rest: Seq<u8>)
    requires
        wf_record(r),
        no_byte(word, LF),
    ensures
        spec_record_line(
            word + seq![SPACE] + record_bytes(r) + seq![LF] + rest,
            word.len() as int + 1,
        ) == Some((r, word.len() as int + 1 + record_bytes(r).len() + 1)),
{
    let record = record_bytes(r);
    let s = word + seq![SPACE] + record + seq![LF] + rest;
    let head = word + seq![SPACE] + record;
    lemma_record_round_trip(r);
    assert(s =~= head + (seq![LF] + rest));
    assert forall|i: int| 0 <= i < head.len() implies head[i] != LF by {
        if i < word.len() {
            assert(head[i] == word[i]);
        } else if i > word.len() {
            assert(head[i] == record[i - word.len() - 1]);
        }
    }
    lemma_find_byte_at(head, seq![LF] + rest, LF);
    assert(s.subrange(word.len() as int + 1, head.len() as int) =~= record);
}

/// The `tree` line of a commit.
pub open spec fn tree_line(tree: Seq<u8>) -> Seq<u8> {
    word_tree() + seq![SPACE] + hex_text(tree) + seq![LF]
}

/// An `author` or `committer` line of a commit.
pub open spec fn record_line_bytes(word: Seq<u8>, r: RecordView) -> Seq<u8> {
    word + seq![SPACE] + record_bytes(r) + seq![LF]
}

/// A `tree` line is read as the tree, where none was read before.
pub proof fn lemma_tree_line_read(tree: Seq<u8>, rest: Seq<u8>, acc: CommitParts)
    requires
        tree.len() == 20,
        acc.tree is None,
    ensures
        spec_commit_lines(tree_line(tree) + rest, acc) == spec_commit_lines(
            rest,
            CommitParts { tree: Some(tree), ..acc },
        ),
{
    let s = tree_line(tree) + rest;
    lemma_hex_text(tree);
    assert(tree_line(tree).len() == 46);
    assert(s[0] == word_tree()[0]);
    assert(s.take(6)[0] == s[0]);
    assert(s.take(9)[0] == s[0]);
    assert(word_author()[0] != s[0]);
    assert(word_committer()[0] != s[0]);
    assert(s.take(4) =~= word_tree());
    assert(s.subrange(5, 45) =~= hex_text(tree));
    assert(s.skip(46) =~= rest);
}

/// An `author` line is read as the author, where none was read before.
pub proof fn lemma_author_line_read(r: RecordView, rest: Seq<u8>, acc: CommitParts)
    requires
        wf_record(r),
        acc.author is None,
    ensures
        spec_commit_lines(record_line_bytes(word_author(), r) + rest, acc) == spec_commit_lines(
            rest,
            CommitParts { author: Some(r), ..acc },
        ),
{
    let line = record_line_bytes(word_author(), r);
    let s = line + rest;
    assert(no_byte(word_author(), LF));
    lemma_record_line(word_author(), r, rest);
    assert(s =~= word_author() + seq![SPACE] + record_bytes(r) + seq![LF] + rest);
    assert(s.take(6) =~= word_author());
    assert(s.skip(line.len() as int) =~= rest);
}

/// A `committer` line is read as the committer, where none was read before.
pub proof fn lemma_committer_line_read(r: RecordView, rest: Seq<u8>, acc: CommitParts)
    requires
        wf_record(r),
        acc.committer is None,
    ensures
        spec_commit_lines(record_line_bytes(word_committer(), r) + rest, acc)
            == spec_commit_lines(rest, CommitParts { committer: Some(r), ..acc }),
{
    let line = record_line_bytes(word_committer(), r);
    let s = line + rest;
    assert(no_byte(word_committer(), LF));
    lemma_record_line(word_committer(), r, rest);
    assert(s =~= word_committer() + seq![SPACE] + record_bytes(r) + seq![LF] + rest);
    assert(s[0] == word_committer()[0]);
    assert(s.take(6)[0] == s[0]);
    assert(word_author()[0] != s[0]);
    assert(s.take(9) =~= word_committer());
    assert(s.skip(line.len() as int) =~= rest);
}

/// An empty line and a message are read as that message.
pub proof fn lemma_message_read(message: Seq<char>, acc: CommitParts)
    ensures
        spec_commit_lines(seq![LF] + encode_utf8(message), acc) == Ok::<CommitParts, Error>(
            CommitParts { message, ..acc },
        ),
{
    let s = seq![LF] + encode_utf8(message);
    assert(s[0] == LF);
    assert(s.len() >= 7 ==> s.take(6)[0] == LF);
    assert(s.len() >= 10 ==> s.take(9)[0] == LF);
    assert(s.len() >= 46 ==> s.take(4)[0] == LF);
    assert(word_author()[0] != LF);
    assert(word_committer()[0] != LF);
    assert(word_tree()[0] != LF);
    assert(word_parent()[0] != LF);
    assert(s.skip(1) =~= encode_utf8(message));
    encode_utf8_valid_utf8(message);
    encode_utf8_decode_utf8(message);
}

/// The body of a commit is its lines one after the other.
pub proof fn lemma_commit_body_lines(c: CommitView)
    ensures
        commit_body(c) == tree_line(c.tree) + (parent_lines(c.parents) + (record_line_bytes(
            word_author(),
            c.author,
        ) + (record_line_bytes(word_committer(), c.committer) + (seq![LF] + encode_utf8(
            c.message,
        ))))),
{
    assert(commit_body(c) =~= tree_line(c.tree) + (parent_lines(c.parents) + (record_line_bytes(
        word_author(),
        c.author,
    ) + (record_line_bytes(word_committer(), c.committer) + (seq![LF] + encode_utf8(
        c.message,
    ))))));
}

/// The body of a commit denotes the commit that it was written for.
pub proof fn lemma_commit_round_trip(c: CommitView)
    requires
        wf_commit(c),
    ensures
        spec_parse_commit(commit_body(c)) == Ok::<CommitView, Error>(c),
{
    let message = seq![LF] + encode_utf8(c.message);
    let s3 = record_line_bytes(word_committer(), c.committer) + message;
    let s2 = record_line_bytes(word_author(), c.author) + s3;
    let s1 = parent_lines(c.parents) + s2;
    let parts1 = CommitParts { tree: Some(c.tree), ..no_parts() };
    let parts2 = CommitParts { parents: c.parents, ..parts1 };
    let parts3 = CommitParts { author: Some(c.author), ..parts2 };
    let parts4 = CommitParts { committer: Some(c.committer), ..parts3 };
    lemma_commit_body_lines(c);
    lemma_tree_line_read(c.tree, s1, no_parts());
    lemma_parent_lines_read(c.parents, s2, parts1);
    assert(parts1.parents + c.parents =~= c.parents);
    lemma_author_line_read(c.author, s3, parts2);
    lemma_committer_line_read(c.committer, message, parts3);
    lemma_message_read(c.message, parts4);
}

/// Round trip: where an object is well formed, and its body is no
/// longer than a `usize` can say, its canonical bytes denote it.
pub proof fn lemma_round_trip(o: ObjectView)
    requires
        wf_object(o),
        body_of(o).len() <= usize::MAX,
    ensures
        spec_parse_object(canonical(o)) == Ok::<ObjectView, Error>(o),
{
    lemma_framed(kind_of(o), body_of(o));
    match o {
        ObjectView::Blob(_) => {},
        ObjectView::Tree(entries) => {
            lemma_tree_round_trip(entries);
        },
        ObjectView::Commit(c) => {
            lemma_commit_round_trip(c);
        },
    }
}

/// Round trip through a loose object: bytes that inflate to the
/// canonical bytes of a well-formed object decode to that object, under
/// the hash of those canonical bytes.
pub proof fn lemma_loose_round_trip(o: ObjectView, compressed: Seq<u8>)
    requires
        wf_object(o),
        body_of(o).len() <= usize::MAX,
    ensures
        zlib_inflated(compressed) == Some(canonical(o)) ==> spec_decode_loose(compressed) == Ok::<
            (Seq<u8>, ObjectView),
            Error,
        >((sha1_of(canonical(o)), o)),
{
    lemma_round_trip(o);
}

/// The hash is a function of the bytes: equal bytes have equal hashes.
pub proof fn lemma_hash_deterministic(a: Seq<u8>, b: Seq<u8>)
    requires
        a == b,
    ensures
        sha1_of(a) == sha1_of(b),
{
}

/// A piece of bytes that ends before the first `b` holds no `b`.
pub proof fn lemma_before_first(s: Seq<u8>, b: u8, from: int, to: int)
    requires
        0 <= from <= to <= find_byte(s, b),
    ensures
        no_byte(s.subrange(from, to), b),
{
    crate::text::lemma_find_byte(s, b);
    assert forall|i: int| 0 <= i < to - from implies s.subrange(from, to)[i] != b by {
        assert(s.subrange(from, to)[i] == s[from + i]);
    }
}

/// A piece of bytes that hold no `b` holds no `b`.
pub proof fn lemma_piece_no_byte(s: Seq<u8>, b: u8, from: int, to: int)
    requires
        0 <= from <= to <= s.len(),
        no_byte(s, b),
    ensures
        no_byte(s.subrange(from, to), b),
{
    assert forall|i: int| 0 <= i < to - from implies s.subrange(from, to)[i] != b by {
        assert(s.subrange(from, to)[i] == s[from + i]);
    }
}

/// An entry that was read from bytes is well formed.
pub proof fn lemma_parsed_entry_wf(s: Seq<u8>)
    ensures
        spec_tree_entry(s) matches Ok((e, n)) ==> wf_entry(e) && 0 < n <= s.len(),
{
    if let Ok((e, n)) = spec_tree_entry(s) {
        let nul = find_byte(s, NUL);
        let sp = find_byte(s, SPACE);
        crate::text::lemma_find_byte(s, NUL);
        crate::text::lemma_find_byte(s, SPACE);
        lemma_before_first(s, SPACE, 0, sp);
        lemma_before_first(s, NUL, 0, sp);
        lemma_before_first(s, NUL, sp + 1, nul);
        decode_utf8_encode_utf8(s.take(sp));
        decode_utf8_encode_utf8(s.subrange(sp + 1, nul));
    }
}

/// Entries that were read from bytes are well formed.
pub proof fn lemma_parsed_tree_wf(s: Seq<u8>)
    ensures
        spec_parse_tree(s) matches Ok(entries) ==> forall|i: int|
            0 <= i < entries.len() ==> wf_entry(#[trigger] entries[i]),
    decreases s.len(),
{
    if s.len() > 0 {
        lemma_parsed_entry_wf(s);
        if let Ok((e, n)) = spec_tree_entry(s) {
            lemma_parsed_tree_wf(s.skip(n));
            if let Ok(rest) = spec_parse_tree(s.skip(n)) {
                let entries = seq![e] + rest;
                assert forall|i: int| 0 <= i < entries.len() implies wf_entry(
                    #[trigger] entries[i],
                ) by {
                    if i > 0 {
                        assert(entries[i] == rest[i - 1]);
                    }
                }
            }
        }
    }
}

/// A record that was read from bytes is well formed.
pub proof fn lemma_parsed_record_wf(s: Seq<u8>)
    ensures
        spec_parse_record(s) matches Some(r) ==> wf_record(r),
{
    if let Some(r) = spec_parse_record(s) {
        let l1 = find_byte(s, LT);
        let l2 = find_byte(s, GT);
        let rest = s.skip(l2 + 2);
        let l3 = find_byte(rest, SPACE);
        crate::text::lemma_find_byte(s, LT);
        crate::text::lemma_find_byte(s, GT);
        crate::text::lemma_find_byte(s, LF);
        crate::text::lemma_find_byte(rest, SPACE);
        assert(no_byte(s, LF));
        lemma_before_first(s, LT, 0, l1 - 1);
        lemma_before_first(s, GT, 0, l1 - 1);
        lemma_piece_no_byte(s, LF, 0, l1 - 1);
        lemma_before_first(s, GT, l1 + 1, l2);
        lemma_piece_no_byte(s, LF, l1 + 1, l2);
        lemma_piece_no_byte(s, LF, l2 + 2 + l3 + 1, s.len() as int);
        assert(rest.skip(l3 + 1) =~= s.subrange(l2 + 2 + l3 + 1, s.len() as int));
        decode_utf8_encode_utf8(s.take(l1 - 1));
        decode_utf8_encode_utf8(s.subrange(l1 + 1, l2));
        decode_utf8_encode_utf8(rest.skip(l3 + 1));
    }
}

/// What has been read of a commit is well formed so far.
pub open spec fn wf_parts(p: CommitParts) -> bool {
    &&& p.tree matches Some(tree) ==> tree.len() == 20
    &&& forall|i: int| 0 <= i < p.parents.len() ==> (#[trigger] p.parents[i]).len() == 20
    &&& p.author matches Some(r) ==> wf_record(r)
    &&& p.committer matches Some(r) ==> wf_record(r)
}

/// Reading on keeps what has been read of a commit well formed.
pub proof fn lemma_parsed_lines_wf(s: Seq<u8>, acc: CommitParts)
    requires
        wf_parts(acc),
    ensures
        spec_commit_lines(s, acc) matches Ok(p) ==> wf_parts(p),
    decreases s.len(),
{
    if s.len() == 0 {
    } else if crate::format::is_author_line(s) {
        if acc.author is None {
            if let Some((r, n)) = spec_record_line(s, 7) {
                lemma_parsed_record_wf(s.subrange(7, find_byte(s, LF)));
                if 0 < n <= s.len() {
                    lemma_parsed_lines_wf(s.skip(n), CommitParts { author: Some(r), ..acc });
                }
            }
        }
    } else if crate::format::is_committer_line(s) {
        if acc.committer is None {
            if let Some((r, n)) = spec_record_line(s, 10) {
                lemma_parsed_record_wf(s.subrange(10, find_byte(s, LF)));
                if 0 < n <= s.len() {
                    lemma_parsed_lines_wf(s.skip(n), CommitParts { committer: Some(r), ..acc });
                }
            }
        }
    } else if crate::format::is_tree_line(s) {
        if acc.tree is None && is_hex_text(s.subrange(5, 45)) {
            lemma_parsed_lines_wf(
                s.skip(46),
                CommitParts { tree: Some(hex_bytes(s.subrange(5, 45))), ..acc },
            );
        }
    } else if crate::format::is_parent_line(s) {
        if is_hex_text(s.subrange(7, 47)) {
            let parents = acc.parents.push(hex_bytes(s.subrange(7, 47)));
            assert forall|i: int| 0 <= i < parents.len() implies (#[trigger] parents[i]).len()
                == 20 by {
                if i < acc.parents.len() {
                    assert(parents[i] == acc.parents[i]);
                }
            }
            lemma_parsed_lines_wf(s.skip(48), CommitParts { parents, ..acc });
        }
    } else {
    }
}

/// A commit that was read from bytes is well formed.
pub proof fn lemma_parsed_commit_wf(s: Seq<u8>)
    ensures
        spec_parse_commit(s) matches Ok(c) ==> wf_commit(c),
{
    lemma_parsed_lines_wf(s, no_parts());
}

/// An object that was read from a body is well formed.
pub proof fn lemma_parsed_body_wf(t: Type, body: Seq<u8>)
    ensures
        spec_parse_body(t, body) matches Ok(o) ==> wf_object(o),
{
    match t {
        Type::Blob => {},
        Type::Tree => {
            lemma_parsed_tree_wf(body);
        },
        Type::Commit => {
            lemma_parsed_commit_wf(body);
        },
    }
}

/// What is read is written back the same: an object that was read from
/// canonical bytes is well formed, so its own canonical bytes denote it.
pub proof fn lemma_parsed_object_wf(s: Seq<u8>)
    ensures
        spec_parse_object(s) matches Ok(o) ==> wf_object(o),
{
    let nul = find_byte(s, NUL);
    if nul < s.len() {
        if let Some(h) = spec_parse_header(s.take(nul)) {
            lemma_parsed_body_wf(h.typp, s.skip(nul + 1));
        }
    }
}

/// The canonical form is unique: bytes that were written for a well
/// formed object are written again, the same, for what they denote.
pub proof fn lemma_canonical_unique(o: ObjectView)
    requires
        wf_object(o),
        body_of(o).len() <= usize::MAX,
    ensures
        spec_parse_object(canonical(o)) matches Ok(read) && canonical(read) == canonical(o),
{
    lemma_round_trip(o);
}

/// The bytes of a text are the bytes of its parts, one after the other.
pub proof fn lemma_encode_concat(a: Seq<char>, b: Seq<char>)
    ensures
        encode_utf8(a + b) == encode_utf8(a) + encode_utf8(b),
    decreases a.len(),
{
    if a.len() == 0 {
        assert(a + b =~= b);
        assert(encode_utf8(a) + encode_utf8(b) =~= encode_utf8(b));
    } else {
        lemma_encode_concat(a.drop_first(), b);
        assert((a + b).drop_first() =~= a.drop_first() + b);
        assert((a + b)[0] == a[0]);
        assert(encode_utf8(a + b) =~= encode_utf8(a) + encode_utf8(b));
    }
}

/// A record as text is, in bytes, the record as it stands in a commit.
pub proof fn lemma_record_text(r: RecordView)
    ensures
        encode_utf8(crate::format::record_text(r)) == record_bytes(r),
{
    let digits = decimal_digits(r.time as nat);
    let open = seq![SPACE, LT];
    let close = seq![GT, SPACE];
    let gap = seq![SPACE];
    lemma_decimal_digits(r.time as nat);
    assert(crate::text::is_ascii_bytes(digits)) by {
        assert forall|i: int| 0 <= i < digits.len() implies #[trigger] digits[i] < 128 by {
            assert(is_digit(digits[i]));
        }
    }
    crate::text::lemma_ascii_utf8(digits);
    crate::text::lemma_ascii_utf8(open);
    crate::text::lemma_ascii_utf8(close);
    crate::text::lemma_ascii_utf8(gap);
    assert(crate::text::ascii_chars(open) =~= seq![' ', '<']);
    assert(crate::text::ascii_chars(close) =~= seq!['>', ' ']);
    assert(crate::text::ascii_chars(gap) =~= seq![' ']);
    let t1 = r.name + seq![' ', '<'];
    let t2 = t1 + r.email;
    let t3 = t2 + seq!['>', ' '];
    let t4 = t3 + crate::text::ascii_chars(digits);
    let t5 = t4 + seq![' '];
    lemma_encode_concat(r.name, seq![' ', '<']);
    lemma_encode_concat(t1, r.email);
    lemma_encode_concat(t2, seq!['>', ' ']);
    lemma_encode_concat(t3, crate::text::ascii_chars(digits));
    lemma_encode_concat(t4, seq![' ']);
    lemma_encode_concat(t5, r.time_zone);
}

} // verus!
