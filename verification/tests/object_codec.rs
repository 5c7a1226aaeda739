use rustgit::error::CommitField;
use rustgit::error::Error;
use rustgit::error::FieldFault;
use rustgit::object;
use rustgit::object::deflate;
use rustgit::object::parse_object;
use rustgit::object::Blob;
use rustgit::object::Commit;
use rustgit::object::Header;
use rustgit::object::Object;
use rustgit::object::Record;
use rustgit::object::Tree;
use rustgit::object::TreeEntry;
use rustgit::object::Type;
use rustgit::util;

fn zero_hex() -> String {
    "0".repeat(40)
}

fn commit_fixture() -> Vec<u8> {
    let body = format!(
        "tree {}\nauthor A <a@x> 1 +0000\ncommitter A <a@x> 1 +0000\n\nhi\n",
        zero_hex()
    );
    let mut bytes = format!("commit {}\0", body.len()).into_bytes();
    bytes.extend_from_slice(body.as_bytes());
    bytes
}

fn malformed(field: CommitField, fault: FieldFault) -> Error {
    Error::MalformedCommit { field, fault }
}

#[test]
fn blob_round_trip() {
    let obj = parse_object(b"blob 5\0hello").unwrap();
    assert_eq!(obj.pack(), b"blob 5\0hello".to_vec());
    let packed = obj.encode().unwrap();
    let (hash, back) = deflate(&packed).unwrap();
    assert_eq!(back, obj);
    assert_eq!(hash, obj.hash());
    assert_eq!(hash.hex(), "b6fc4c620b67d95f953a5c1c1230aaab5db5a1b0");
    assert!(matches!(back, Object::Blob(_)));
    assert_eq!(object::Hash::from_hex(hash.hex().as_bytes()).unwrap(), hash);
}

#[test]
fn empty_blob_round_trip() {
    let obj = Object::Blob(Blob::new(Vec::new()));
    assert_eq!(obj.pack(), b"blob 0\0".to_vec());
    assert_eq!(obj.hash().hex(), "e69de29bb2d1d6434b8b29ae775ad8c2e48c5391");
    let (_, back) = deflate(&obj.encode().unwrap()).unwrap();
    assert_eq!(back, obj);
}

#[test]
fn hash_of_empty_input() {
    assert_eq!(object::Hash::sum(b"").hex(), "da39a3ee5e6b4b0d3255bfef95601890afd80709");
}

#[test]
fn hash_is_deterministic_and_sensitive() {
    let a = b"the quick brown fox".to_vec();
    assert_eq!(object::Hash::sum(&a), object::Hash::sum(&a));
    for i in 0..a.len() {
        let mut b = a.clone();
        b[i] ^= 1;
        assert_ne!(object::Hash::sum(&a), object::Hash::sum(&b));
    }
}

#[test]
fn hash_from_bytes_wants_twenty() {
    let bytes: Vec<u8> = (0u8..20).collect();
    let hash = object::Hash::from(&bytes).unwrap();
    assert_eq!(hash.bytes(), &bytes[..]);
    assert_eq!(hash.hex(), "000102030405060708090a0b0c0d0e0f10111213");
    assert_eq!(hash.hex_digits(), hash.hex().into_bytes());
    assert_eq!(object::Hash::from(&bytes[..19]), Err(Error::MalformedHash));
    assert_eq!(object::Hash::from(&[0u8; 21]), Err(Error::MalformedHash));
    assert_eq!(object::Hash::from(&[]), Err(Error::MalformedHash));
}

#[test]
fn hash_from_hex_takes_both_cases() {
    let lower = object::Hash::from_hex(b"000102030405060708090a0b0c0d0e0f10111213").unwrap();
    let upper = object::Hash::from_hex(b"000102030405060708090A0B0C0D0E0F10111213").unwrap();
    assert_eq!(lower, upper);
    assert!(lower.same(&upper));
    assert_eq!(lower.bytes()[10], 0x0a);
    assert_eq!(lower.bytes()[19], 0x13);
}

#[test]
fn hash_from_hex_rejects() {
    assert_eq!(object::Hash::from_hex(b""), Err(Error::MalformedHash));
    assert_eq!(object::Hash::from_hex(b"00"), Err(Error::MalformedHash));
    assert_eq!(
        object::Hash::from_hex(b"000102030405060708090a0b0c0d0e0f1011121"),
        Err(Error::MalformedHash)
    );
    assert_eq!(
        object::Hash::from_hex(b"000102030405060708090a0b0c0d0e0f101112134"),
        Err(Error::MalformedHash)
    );
    assert_eq!(
        object::Hash::from_hex(b"g00102030405060708090a0b0c0d0e0f10111213"),
        Err(Error::MalformedHash)
    );
    assert_eq!(
        object::Hash::from_hex(b"000102030405060708090a0b0c0d0e0f1011121314"),
        Err(Error::MalformedHash)
    );
    assert_eq!(object::Hash::from_hex(&[0xff; 40]), Err(Error::MalformedHash));
}

#[test]
fn tree_keeps_order_and_triples() {
    let h1: Vec<u8> = (1u8..21).collect();
    let h2: Vec<u8> = (101u8..121).collect();
    let h3 = vec![0x20u8; 20];
    let mut body = Vec::new();
    body.extend_from_slice(b"100644 zebra.txt\0");
    body.extend_from_slice(&h1);
    body.extend_from_slice(b"40000 a dir\0");
    body.extend_from_slice(&h2);
    body.extend_from_slice(b"100755 m\0");
    body.extend_from_slice(&h3);
    let mut bytes = format!("tree {}\0", body.len()).into_bytes();
    bytes.extend_from_slice(&body);
    let obj = parse_object(&bytes).unwrap();
    let tree = match &obj {
        Object::Tree(t) => t,
        _ => panic!("not a tree"),
    };
    assert_eq!(tree.len(), 3);
    let e0 = tree.entry(0).unwrap();
    assert_eq!((e0.mode(), e0.name(), e0.hash().bytes()), ("100644", "zebra.txt", &h1[..]));
    let e1 = tree.entry(1).unwrap();
    assert_eq!((e1.mode(), e1.name(), e1.hash().bytes()), ("40000", "a dir", &h2[..]));
    let e2 = tree.entry(2).unwrap();
    assert_eq!((e2.mode(), e2.name(), e2.hash().bytes()), ("100755", "m", &h3[..]));
    assert!(tree.entry(3).is_none());
    assert_eq!(tree.body(), body);
    assert_eq!(obj.pack(), bytes);
    assert_eq!(obj.kind(), Type::Tree);
    let (_, back) = deflate(&obj.encode().unwrap()).unwrap();
    assert_eq!(back, obj);
}

#[test]
fn tree_built_by_hand_round_trips() {
    let hash = object::Hash::sum(b"x");
    let entries = vec![
        TreeEntry::new("100644".to_string(), "b".to_string(), hash).unwrap(),
        TreeEntry::new("100644".to_string(), "a".to_string(), hash).unwrap(),
    ];
    let obj = Object::Tree(Tree::new(entries));
    let back = parse_object(&obj.pack()).unwrap();
    assert_eq!(back, obj);
    match back {
        Object::Tree(t) => {
            assert_eq!(t.entry(0).unwrap().name(), "b");
            assert_eq!(t.entry(1).unwrap().name(), "a");
        }
        _ => panic!("not a tree"),
    }
}

#[test]
fn empty_tree() {
    let obj = parse_object(b"tree 0\0").unwrap();
    assert_eq!(obj, Object::Tree(Tree::new(Vec::new())));
    assert_eq!(obj.hash().hex(), "4b825dc642cb6eb9a060e54bf8d69288fbee4904");
}

#[test]
fn tree_entry_rejects_what_would_not_read_back() {
    let hash = object::Hash::sum(b"x");
    assert!(TreeEntry::new("10 0644".to_string(), "a".to_string(), hash).is_none());
    assert!(TreeEntry::new("100\0644".to_string(), "a".to_string(), hash).is_none());
    assert!(TreeEntry::new("100644".to_string(), "a\0b".to_string(), hash).is_none());
    assert!(TreeEntry::new("100644".to_string(), "a b".to_string(), hash).is_some());
    assert!(TreeEntry::new("".to_string(), "".to_string(), hash).is_some());
}

#[test]
fn truncated_tree_entries() {
    assert_eq!(Tree::parse(b"100644 a"), Err(Error::TruncatedTreeEntry));
    assert_eq!(Tree::parse(b"100644 a\0"), Err(Error::TruncatedTreeEntry));
    let mut short = b"100644 a\0".to_vec();
    short.extend_from_slice(&[7u8; 19]);
    assert_eq!(Tree::parse(&short), Err(Error::TruncatedTreeEntry));
    let mut no_space = b"100644a\0".to_vec();
    no_space.extend_from_slice(&[7u8; 20]);
    assert_eq!(Tree::parse(&no_space), Err(Error::TruncatedTreeEntry));
    let mut space_in_hash = b"100644a\0".to_vec();
    space_in_hash.extend_from_slice(&[0x20u8; 20]);
    assert_eq!(Tree::parse(&space_in_hash), Err(Error::TruncatedTreeEntry));
    let mut second = b"1 a\0".to_vec();
    second.extend_from_slice(&[7u8; 20]);
    second.extend_from_slice(b"2 b\0");
    assert_eq!(Tree::parse(&second), Err(Error::TruncatedTreeEntry));
}

#[test]
fn tree_entry_not_utf8() {
    let mut bytes = vec![0xffu8, b' ', b'a', 0];
    bytes.extend_from_slice(&[7u8; 20]);
    assert_eq!(Tree::parse(&bytes), Err(Error::InvalidUtf8));
    let mut bytes = vec![b'1', b' ', 0xc3, 0];
    bytes.extend_from_slice(&[7u8; 20]);
    assert_eq!(Tree::parse(&bytes), Err(Error::InvalidUtf8));
}

#[test]
fn commit_parser_fixture() {
    let obj = parse_object(&commit_fixture()).unwrap();
    let commit = match &obj {
        Object::Commit(c) => c,
        _ => panic!("not a commit"),
    };
    assert_eq!(commit.parents().len(), 0);
    assert_eq!(commit.author().name(), "A");
    assert_eq!(commit.author().email(), "a@x");
    assert_eq!(commit.author().time(), 1);
    assert_eq!(commit.author().time_zone(), "+0000");
    assert_eq!(commit.committer().name(), "A");
    assert_eq!(commit.message(), "hi\n");
    assert_eq!(commit.tree().hex(), zero_hex());
    assert_eq!(obj.pack(), commit_fixture());
    assert_eq!(commit_fixture().len(), "commit 99\0".len() + 99);
}

#[test]
fn commit_with_parents_round_trips() {
    let tree = object::Hash::sum(b"tree");
    let first_parent = object::Hash::sum(b"first_parent");
    let second_parent = object::Hash::sum(b"second_parent");
    let author = Record::new(
        "Ada Lovelace".to_string(),
        "ada@example.org".to_string(),
        1234567890,
        "+0100".to_string(),
    )
    .unwrap();
    let committer =
        Record::new("B".to_string(), "".to_string(), u64::MAX, "-0330 x".to_string()).unwrap();
    let commit = Commit::new(
        tree,
        vec![first_parent, second_parent],
        author,
        committer,
        "parent of nothing\n\nauthor unknown\n".to_string(),
    );
    let body = commit.body();
    let expected = format!(
        "tree {}\nparent {}\nparent {}\nauthor Ada Lovelace <ada@example.org> 1234567890 +0100\ncommitter B <> 18446744073709551615 -0330 x\n\nparent of nothing\n\nauthor unknown\n",
        tree.hex(),
        first_parent.hex(),
        second_parent.hex()
    );
    assert_eq!(body, expected.as_bytes());
    let obj = Object::Commit(commit);
    let (hash, back) = deflate(&obj.encode().unwrap()).unwrap();
    assert_eq!(back, obj);
    assert_eq!(hash, object::Hash::sum(&obj.pack()));
    match back {
        Object::Commit(c) => {
            assert_eq!(c.parents(), &vec![first_parent, second_parent]);
            assert_eq!(c.committer().time(), u64::MAX);
            assert_eq!(c.committer().time_zone(), "-0330 x");
            assert_eq!(c.message(), "parent of nothing\n\nauthor unknown\n");
        }
        _ => panic!("not a commit"),
    }
}

#[test]
fn commit_lines_in_any_order() {
    let body = format!(
        "committer C <c@x> 2 +0000\nparent {}\nauthor A <a@x> 1 +0000\ntree {}\nparent {}\nmsg",
        "11".repeat(20),
        "22".repeat(20),
        "33".repeat(20)
    );
    let commit = Commit::parse(body.as_bytes()).unwrap();
    assert_eq!(commit.tree().hex(), "22".repeat(20));
    assert_eq!(commit.parents().len(), 2);
    assert_eq!(commit.parents()[0].hex(), "11".repeat(20));
    assert_eq!(commit.parents()[1].hex(), "33".repeat(20));
    assert_eq!(commit.author().name(), "A");
    assert_eq!(commit.committer().name(), "C");
    assert_eq!(commit.message(), "msg");
}

#[test]
fn commit_message_edges() {
    let head = format!("tree {}\nauthor A <a@x> 1 +0000\ncommitter A <a@x> 1 +0000\n", zero_hex());
    let none = Commit::parse(head.as_bytes()).unwrap();
    assert_eq!(none.message(), "");
    let only_separator = Commit::parse(format!("{}\n", head).as_bytes()).unwrap();
    assert_eq!(only_separator.message(), "");
    let two = Commit::parse(format!("{}\n\nx", head).as_bytes()).unwrap();
    assert_eq!(two.message(), "\nx");
    let parent_in_message =
        Commit::parse(format!("{}\nparent {}\n", head, zero_hex()).as_bytes()).unwrap();
    assert_eq!(parent_in_message.parents().len(), 0);
    assert_eq!(parent_in_message.message(), format!("parent {}\n", zero_hex()));
    assert_eq!(none.body(), format!("{}\n", head).as_bytes());
}

#[test]
fn commit_faults() {
    let tree = format!("tree {}\n", zero_hex());
    let author = "author A <a@x> 1 +0000\n";
    let committer = "committer A <a@x> 1 +0000\n";
    let parse = |s: String| Commit::parse(s.as_bytes());
    assert_eq!(
        parse(format!("{}{}", author, committer)),
        Err(malformed(CommitField::Tree, FieldFault::Missing))
    );
    assert_eq!(parse(String::new()), Err(malformed(CommitField::Tree, FieldFault::Missing)));
    assert_eq!(
        parse(format!("{}{}", tree, committer)),
        Err(malformed(CommitField::Author, FieldFault::Missing))
    );
    assert_eq!(
        parse(format!("{}{}", tree, author)),
        Err(malformed(CommitField::Committer, FieldFault::Missing))
    );
    assert_eq!(
        parse(format!("{}{}{}", tree, tree, author)),
        Err(malformed(CommitField::Tree, FieldFault::Duplicate))
    );
    assert_eq!(
        parse(format!("{}{}{}", tree, author, author)),
        Err(malformed(CommitField::Author, FieldFault::Duplicate))
    );
    assert_eq!(
        parse(format!("{}{}{}", committer, tree, committer)),
        Err(malformed(CommitField::Committer, FieldFault::Duplicate))
    );
    assert_eq!(
        parse(format!("{}author A <a@x> 1 +0000", tree)),
        Err(malformed(CommitField::Author, FieldFault::Malformed))
    );
    assert_eq!(
        parse(format!("{}author\n{}", tree, committer)),
        Err(malformed(CommitField::Author, FieldFault::Malformed))
    );
    assert_eq!(
        parse(format!("{}author A a@x 1 +0000\n", tree)),
        Err(malformed(CommitField::Author, FieldFault::Malformed))
    );
    assert_eq!(
        parse(format!("{}{}committer A <a@x> x +0000\n", tree, author)),
        Err(malformed(CommitField::Committer, FieldFault::Malformed))
    );
    assert_eq!(parse(format!("tree {}\n", "zz".repeat(20))), Err(Error::MalformedHash));
    assert_eq!(
        parse(format!("{}parent {}\n", tree, "0g".repeat(20))),
        Err(Error::MalformedHash)
    );
}

#[test]
fn commit_message_not_utf8() {
    let mut body = format!(
        "tree {}\nauthor A <a@x> 1 +0000\ncommitter A <a@x> 1 +0000\n\n",
        zero_hex()
    )
    .into_bytes();
    body.push(0xff);
    assert_eq!(Commit::parse(&body), Err(Error::InvalidUtf8));
}

#[test]
fn record_parse_and_text() {
    let r = Record::parse(b"Ada L <ada@x.org> 42 +0200").unwrap();
    assert_eq!((r.name(), r.email(), r.time(), r.time_zone()), ("Ada L", "ada@x.org", 42, "+0200"));
    assert_eq!(r.pack_string(), "Ada L <ada@x.org> 42 +0200");
    assert_eq!(r.pack_bytes(), b"Ada L <ada@x.org> 42 +0200");
    let zeros = Record::parse(b" <> 007 ").unwrap();
    assert_eq!((zeros.name(), zeros.email(), zeros.time(), zeros.time_zone()), ("", "", 7, ""));
    let max = Record::parse(b"A <a> 18446744073709551615 z").unwrap();
    assert_eq!(max.time(), u64::MAX);
}

#[test]
fn record_rejects() {
    assert!(Record::parse(b"").is_none());
    assert!(Record::parse(b"A a> 1 z").is_none());
    assert!(Record::parse(b"A <a 1 z").is_none());
    assert!(Record::parse(b"<a> 1 z").is_none());
    assert!(Record::parse(b"A >a< 1 z").is_none());
    assert!(Record::parse(b"A <a>").is_none());
    assert!(Record::parse(b"A <a> ").is_none());
    assert!(Record::parse(b"A <a> 1").is_none());
    assert!(Record::parse(b"A <a>  z").is_none());
    assert!(Record::parse(b"A <a> + z").is_none());
    assert!(Record::parse(b"A <a> +7 z").is_none());
    assert!(Record::parse(b"A <a> -1 z").is_none());
    assert!(Record::parse(b"A <a> 1x z").is_none());
    assert!(Record::parse(b"A <a> 18446744073709551616 z").is_none());
    assert!(Record::parse(b"A <a> 1 z\n").is_none());
    assert!(Record::parse(b"\xff <a> 1 z").is_none());
    assert!(Record::new("A<".to_string(), "a".to_string(), 1, "z".to_string()).is_none());
    assert!(Record::new("A".to_string(), "a>".to_string(), 1, "z".to_string()).is_none());
    assert!(Record::new("A".to_string(), "a".to_string(), 1, "z\n".to_string()).is_none());
    assert!(Record::new("A".to_string(), "<a".to_string(), 1, "z".to_string()).is_some());
}

#[test]
fn headers() {
    assert_eq!(Header::parse(b"blob 0"), Ok(Header { typp: Type::Blob, size: 0 }));
    assert_eq!(Header::parse(b"tree 12"), Ok(Header { typp: Type::Tree, size: 12 }));
    assert_eq!(Header::parse(b"commit 007"), Ok(Header { typp: Type::Commit, size: 7 }));
    for bad in [
        &b""[..],
        b"blob",
        b"blob ",
        b"blob  1",
        b"blob 1 ",
        b"blob +1",
        b"blob -1",
        b"blob 1a",
        b"tag 1",
        b"blobs 1",
        b"Blob 1",
        b" blob 1",
        b"commit 99999999999999999999999",
    ] {
        assert_eq!(Header::parse(bad), Err(Error::UnrecognizedHeader));
    }
}

#[test]
fn object_framing_errors() {
    assert_eq!(parse_object(b""), Err(Error::UnrecognizedHeader));
    assert_eq!(parse_object(b"blob 5"), Err(Error::UnrecognizedHeader));
    assert_eq!(parse_object(b"blub 5\0hello"), Err(Error::UnrecognizedHeader));
    assert_eq!(parse_object(b"blob 4\0hello"), Err(Error::SizeMismatch));
    assert_eq!(parse_object(b"blob 6\0hello"), Err(Error::SizeMismatch));
    assert_eq!(parse_object(b"tree 1\0x"), Err(Error::TruncatedTreeEntry));
    assert_eq!(
        parse_object(b"commit 1\0x"),
        Err(malformed(CommitField::Tree, FieldFault::Missing))
    );
    assert_eq!(parse_object(b"blob 3\0a\0b").unwrap(), Object::Blob(Blob::new(b"a\0b".to_vec())));
}

#[test]
fn frame_writes_the_header() {
    assert_eq!(object::frame(Type::Blob, b"abc"), b"blob 3\0abc");
    assert_eq!(object::frame(Type::Tree, b""), b"tree 0\0");
    assert_eq!(object::frame(Type::Commit, &[b'x'; 123])[..11], b"commit 123\0"[..]);
}

#[test]
fn corrupt_zlib_stream() {
    let packed = util::encode(b"blob 5\0hello").unwrap();
    assert_eq!(util::decode(&packed).unwrap(), b"blob 5\0hello");
    for cut in 0..packed.len() {
        assert_eq!(util::decode(&packed[..cut]), Err(Error::CorruptStream));
        assert!(matches!(deflate(&packed[..cut]), Err(Error::CorruptStream)));
    }
    assert_eq!(util::decode(b"not zlib at all"), Err(Error::CorruptStream));
    let mut flipped = packed.clone();
    let last = flipped.len() - 1;
    flipped[last] ^= 0xff;
    assert_eq!(util::decode(&flipped), Err(Error::CorruptStream));
}

#[test]
fn zlib_round_trip_is_not_the_identity() {
    let data: Vec<u8> = (0..5000u32).map(|i| (i % 7) as u8).collect();
    let packed = util::encode(&data).unwrap();
    assert_ne!(packed, data);
    assert!(packed.len() < data.len());
    assert_eq!(util::decode(&packed).unwrap(), data);
    assert_eq!(util::decode(&util::encode(b"").unwrap()).unwrap(), b"");
    let mut with_tail = packed.clone();
    with_tail.extend_from_slice(b"trailing bytes");
    assert_eq!(util::decode(&with_tail).unwrap(), data);
}

#[test]
fn loose_object_that_is_no_object() {
    let packed = util::encode(b"hello").unwrap();
    assert!(matches!(deflate(&packed), Err(Error::UnrecognizedHeader)));
    let packed = util::encode(b"blob 9\0hello").unwrap();
    assert!(matches!(deflate(&packed), Err(Error::SizeMismatch)));
}

#[test]
fn copies_are_equal() {
    let obj = parse_object(&commit_fixture()).unwrap();
    assert_eq!(obj.duplicate(), obj);
    assert_eq!(obj.body(), commit_fixture()[10..].to_vec());
    let blob = Blob::new(vec![1, 2, 3]);
    assert_eq!(blob.duplicate(), blob);
    assert_eq!(blob.data(), &[1, 2, 3]);
    assert_eq!(blob.pack(), b"blob 3\0\x01\x02\x03");
}

#[test]
fn failures_in_words() {
    assert_eq!(Error::MalformedHash.message(), "malformed hash");
    assert_eq!(Error::CorruptStream.message(), "corrupt zlib stream");
    assert_eq!(Error::UnrecognizedHeader.message(), "unrecognized header");
    assert_eq!(Error::SizeMismatch.message(), "size mismatch");
    assert_eq!(Error::TruncatedTreeEntry.message(), "truncated tree entry");
    assert_eq!(malformed(CommitField::Tree, FieldFault::Missing).message(), "missing tree");
    assert_eq!(malformed(CommitField::Author, FieldFault::Missing).message(), "missing author");
    assert_eq!(
        malformed(CommitField::Committer, FieldFault::Missing).message(),
        "missing committer"
    );
    assert_eq!(malformed(CommitField::Tree, FieldFault::Duplicate).message(), "duplicate tree");
    assert_eq!(malformed(CommitField::Author, FieldFault::Duplicate).message(), "duplicate author");
    assert_eq!(
        malformed(CommitField::Committer, FieldFault::Duplicate).message(),
        "duplicate committer"
    );
    assert_eq!(malformed(CommitField::Tree, FieldFault::Malformed).message(), "malformed tree");
    assert_eq!(malformed(CommitField::Author, FieldFault::Malformed).message(), "malformed author");
    assert_eq!(
        malformed(CommitField::Committer, FieldFault::Malformed).message(),
        "malformed committer"
    );
    assert_eq!(Error::UnsupportedVersion.message(), "unsupported version");
    assert_eq!(Error::ObjectCountMismatch.message(), "object count mismatch");
    assert_eq!(Error::InvalidObjectType.message(), "invalid pack object type");
    assert_eq!(Error::DeltaSizeMismatch.message(), "delta result size mismatch");
    assert_eq!(Error::DeltaBaseSizeMismatch.message(), "delta base size mismatch");
    assert_eq!(Error::DeltaChainTooDeep.message(), "delta chain too deep");
    assert_eq!(Error::PackTooLarge.message(), "large pack file not supported");
    assert_eq!(Error::InvalidUtf8.message(), "invalid utf-8");
    assert_eq!(Error::MalformedIndex.message(), "malformed index");
    assert_eq!(Error::MalformedPack.message(), "malformed pack");
    assert_eq!(Error::MalformedDelta.message(), "malformed delta");
    assert_eq!(Error::CompressFailed.message(), "compression failed");
}

#[test]
fn compressing_succeeds_and_inflates_back() {
    let inputs: Vec<Vec<u8>> = vec![
        Vec::new(),
        vec![0],
        b"blob 5\0hello".to_vec(),
        vec![0xff; 70_000],
        (0..100_000u32).map(|i| (i.wrapping_mul(2654435761) >> 24) as u8).collect(),
    ];
    for input in inputs {
        let packed = util::encode(&input).unwrap();
        assert_eq!(util::decode(&packed), Ok(input.clone()));
        assert_eq!(util::encode(&input), Ok(packed));
    }
    let blob = Blob::new(b"abc".to_vec());
    assert_eq!(blob.encode(), Object::Blob(blob.duplicate()).encode());
    assert_eq!(util::decode(&blob.encode().unwrap()).unwrap(), blob.pack());
    assert_eq!(blob.hash(), Object::Blob(blob.duplicate()).hash());
}
