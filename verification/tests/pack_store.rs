use rustgit::delta::apply_delta;
use rustgit::delta::read_instruction;
use rustgit::delta::Delta;
use rustgit::delta::DeltaInstruction;
use rustgit::error::Error;
use rustgit::text::bytes_before;
use rustgit::index::PackIndex;
use rustgit::object;
use rustgit::object::Blob;
use rustgit::object::Object;
use rustgit::object::Type;
use rustgit::pack::encode_pack_obj_header;
use rustgit::pack::parse_pack;
use rustgit::pack::parse_pack_header;
use rustgit::pack::parse_pack_obj_header;
use rustgit::pack::read_entry;
use rustgit::pack::read_ofs;
use rustgit::pack::DeltaBase;
use rustgit::pack::ObjType;
use rustgit::pack::Pack;
use rustgit::repo::Repo;
use rustgit::util;

fn hash_of(kind: Type, body: &[u8]) -> object::Hash {
    object::Hash::sum(&object::frame(kind, body))
}

fn be32(n: u32) -> [u8; 4] {
    n.to_be_bytes()
}

/// An index of version 2 for these lines, which it puts in order.
fn build_index(lines: &[(object::Hash, u32, u64)]) -> Vec<u8> {
    let mut lines = lines.to_vec();
    lines.sort_by(|a, b| a.0.bytes().cmp(b.0.bytes()));
    let mut out = vec![0xff, b't', b'O', b'c'];
    out.extend_from_slice(&be32(2));
    for b in 0..256usize {
        let count = lines.iter().filter(|l| (l.0.bytes()[0] as usize) <= b).count();
        out.extend_from_slice(&be32(count as u32));
    }
    for l in &lines {
        out.extend_from_slice(l.0.bytes());
    }
    for l in &lines {
        out.extend_from_slice(&be32(l.1));
    }
    let mut large = Vec::new();
    for l in &lines {
        if l.2 < 0x8000_0000 {
            out.extend_from_slice(&be32(l.2 as u32));
        } else {
            out.extend_from_slice(&be32(0x8000_0000 | (large.len() as u32 / 8)));
            large.extend_from_slice(&l.2.to_be_bytes());
        }
    }
    out.extend_from_slice(&large);
    out.extend_from_slice(&[0u8; 40]);
    out
}

fn pack_start(count: u32) -> Vec<u8> {
    let mut out = b"PACK".to_vec();
    out.extend_from_slice(&be32(2));
    out.extend_from_slice(&be32(count));
    out
}

fn whole_entry(kind: ObjType, body: &[u8]) -> Vec<u8> {
    let mut out = encode_pack_obj_header(kind, body.len() as u64);
    out.extend_from_slice(&util::encode(body).unwrap());
    out
}

fn distance_bytes(mut d: u64) -> Vec<u8> {
    let mut out = vec![(d & 0x7f) as u8];
    d >>= 7;
    while d > 0 {
        d -= 1;
        out.push(0x80 | (d & 0x7f) as u8);
        d >>= 7;
    }
    out.reverse();
    out
}

fn ofs_entry(distance: u64, delta: &[u8]) -> Vec<u8> {
    let mut out = encode_pack_obj_header(ObjType::OfsDelta, delta.len() as u64);
    out.extend_from_slice(&distance_bytes(distance));
    out.extend_from_slice(&util::encode(delta).unwrap());
    out
}

fn ref_entry(base: &object::Hash, delta: &[u8]) -> Vec<u8> {
    let mut out = encode_pack_obj_header(ObjType::RefDelta, delta.len() as u64);
    out.extend_from_slice(base.bytes());
    out.extend_from_slice(&util::encode(delta).unwrap());
    out
}

/// Copy{0,5}, Insert{" there"}, Copy{5,6} on a base of 11 bytes.
fn hello_delta() -> Vec<u8> {
    let mut d = vec![11, 17];
    d.extend_from_slice(&[0x90, 5]);
    d.push(6);
    d.extend_from_slice(b" there");
    d.extend_from_slice(&[0x91, 5, 6]);
    d
}

struct Built {
    index: Vec<u8>,
    pack: Vec<u8>,
    base: object::Hash,
    by_offset: object::Hash,
    by_hash: object::Hash,
    tree: object::Hash,
}

/// A pack of four entries: an empty tree, a blob, a delta on the blob
/// by offset, and a delta on that delta by hash.
fn build_pack() -> Built {
    let tree = hash_of(Type::Tree, b"");
    let base = hash_of(Type::Blob, b"hello world");
    let by_offset = hash_of(Type::Blob, b"hello there world");
    let by_hash = hash_of(Type::Blob, b"hello there");
    let mut pack = pack_start(4);
    let tree_at = pack.len() as u64;
    pack.extend_from_slice(&whole_entry(ObjType::Tree, b""));
    let base_at = pack.len() as u64;
    pack.extend_from_slice(&whole_entry(ObjType::Blob, b"hello world"));
    let ofs_at = pack.len() as u64;
    pack.extend_from_slice(&ofs_entry(ofs_at - base_at, &hello_delta()));
    let ref_at = pack.len() as u64;
    pack.extend_from_slice(&ref_entry(&by_offset, &[17, 11, 0x90, 11]));
    pack.extend_from_slice(&[0u8; 20]);
    let index = build_index(&[
        (by_hash, 4, ref_at),
        (by_offset, 3, ofs_at),
        (base, 2, base_at),
        (tree, 1, tree_at),
    ]);
    Built { index, pack, base, by_offset, by_hash, tree }
}

fn blob(bytes: &[u8]) -> Object {
    Object::Blob(Blob::new(bytes.to_vec()))
}

#[test]
fn entry_header_of_blob_17() {
    let bytes = encode_pack_obj_header(ObjType::Blob, 17);
    assert_eq!(bytes, vec![0b1011_0001, 0b0000_0001]);
    assert_eq!(bytes[0] & 0x7f, 0b0011_0001);
    assert_eq!(parse_pack_obj_header(&bytes), Ok((ObjType::Blob, 17, 2)));
    assert_eq!(parse_pack_obj_header(&[0b0011_0001, 0b0000_0001]), Ok((ObjType::Blob, 1, 1)));
}

#[test]
fn entry_headers_round_trip() {
    let kinds = [
        ObjType::Commit,
        ObjType::Tree,
        ObjType::Blob,
        ObjType::Tag,
        ObjType::OfsDelta,
        ObjType::RefDelta,
    ];
    let sizes = [0u64, 1, 15, 16, 17, 2047, 2048, 1 << 32, u64::MAX - 1, u64::MAX];
    for kind in kinds {
        for size in sizes {
            let mut bytes = encode_pack_obj_header(kind, size);
            let n = bytes.len();
            bytes.extend_from_slice(&[0xff, 0x00]);
            assert_eq!(parse_pack_obj_header(&bytes), Ok((kind, size, n)));
        }
    }
    assert_eq!(encode_pack_obj_header(ObjType::Commit, 0), vec![0x10]);
    assert_eq!(encode_pack_obj_header(ObjType::RefDelta, 15), vec![0x7f]);
    assert_eq!(encode_pack_obj_header(ObjType::Tree, 16), vec![0xa0, 0x01]);
    assert_eq!(encode_pack_obj_header(ObjType::Tag, 0x1234), vec![0xc4, 0xa3, 0x02]);
}

#[test]
fn entry_header_errors() {
    assert_eq!(parse_pack_obj_header(&[]), Err(Error::MalformedPack));
    assert_eq!(parse_pack_obj_header(&[0x00]), Err(Error::InvalidObjectType));
    assert_eq!(parse_pack_obj_header(&[0x8f, 0x01]), Err(Error::InvalidObjectType));
    assert_eq!(parse_pack_obj_header(&[0x50]), Err(Error::InvalidObjectType));
    assert_eq!(parse_pack_obj_header(&[0xd0, 0x01]), Err(Error::InvalidObjectType));
    assert_eq!(parse_pack_obj_header(&[0xb1]), Err(Error::MalformedPack));
    assert_eq!(parse_pack_obj_header(&[0xb1, 0x80, 0x80]), Err(Error::MalformedPack));
    let too_big = [0xbf, 0xff, 0xff, 0xff, 0xff, 0xff, 0xff, 0xff, 0xff, 0x1f];
    assert_eq!(parse_pack_obj_header(&too_big), Err(Error::MalformedPack));
    let just_fits = [0xbf, 0xff, 0xff, 0xff, 0xff, 0xff, 0xff, 0xff, 0xff, 0x0f];
    assert_eq!(parse_pack_obj_header(&just_fits), Ok((ObjType::Blob, u64::MAX, 10)));
}

#[test]
fn distances_to_a_base() {
    assert_eq!(read_ofs(&[0x05], 10), Some((5, 1)));
    assert_eq!(read_ofs(&[0x00], 10), Some((0, 1)));
    assert_eq!(read_ofs(&[0x80, 0x00], 1000), Some((128, 2)));
    assert_eq!(read_ofs(&[0x81, 0x01, 7], 1000), Some((257, 2)));
    assert_eq!(read_ofs(&[0xff, 0xff, 0x7f], 10_000_000), Some((2113663, 3)));
    assert_eq!(read_ofs(&[0x81, 0x01], 256), None);
    assert_eq!(read_ofs(&[0x81, 0x01], 257), Some((257, 2)));
    assert_eq!(read_ofs(&[0x81], 1000), None);
    assert_eq!(read_ofs(&[], 1000), None);
    assert_eq!(read_ofs(&[0x06], 5), None);
    for d in [1u64, 127, 128, 129, 16511, 16512, 1 << 20, 1 << 31] {
        let bytes = distance_bytes(d);
        assert_eq!(read_ofs(&bytes, d), Some((d, bytes.len())));
        assert_eq!(read_ofs(&bytes, d - 1), None);
    }
}

#[test]
fn reading_entries() {
    let built = build_pack();
    let (h, start) = read_entry(&built.pack, 12).unwrap();
    assert_eq!((h.kind, h.inflated_size, h.base), (ObjType::Tree, 0, None));
    assert_eq!(start, 13);
    let mut pack = vec![0u8; 300];
    pack.extend_from_slice(&encode_pack_obj_header(ObjType::OfsDelta, 9));
    pack.extend_from_slice(&distance_bytes(300));
    let (h, start) = read_entry(&pack, 300).unwrap();
    assert_eq!(h.kind, ObjType::OfsDelta);
    assert_eq!(h.inflated_size, 9);
    assert_eq!(h.base, Some(DeltaBase::Offset(-300)));
    assert_eq!(start, 303);
    let mut beyond = vec![0u8; 300];
    beyond.extend_from_slice(&encode_pack_obj_header(ObjType::OfsDelta, 9));
    beyond.extend_from_slice(&distance_bytes(301));
    assert!(matches!(read_entry(&beyond, 300), Err(Error::MalformedPack)));
    let mut itself = vec![0u8; 300];
    itself.extend_from_slice(&encode_pack_obj_header(ObjType::OfsDelta, 9));
    itself.push(0);
    assert!(matches!(read_entry(&itself, 300), Err(Error::MalformedPack)));
    let base = object::Hash::sum(b"base");
    let mut by_hash = encode_pack_obj_header(ObjType::RefDelta, 3);
    by_hash.extend_from_slice(base.bytes());
    let (h, start) = read_entry(&by_hash, 0).unwrap();
    assert_eq!(h.base, Some(DeltaBase::Ref(base)));
    assert_eq!(start, 21);
    assert!(matches!(read_entry(&by_hash[..20], 0), Err(Error::MalformedPack)));
    assert!(matches!(read_entry(&by_hash, 21), Err(Error::MalformedPack)));
    assert!(matches!(read_entry(&[0x00], 0), Err(Error::InvalidObjectType)));
}

#[test]
fn delta_hello_there_world() {
    let out = apply_delta(b"hello world", &hello_delta()).unwrap();
    assert_eq!(out, b"hello there world");
    let delta = Delta::parse(&hello_delta()).unwrap();
    assert_eq!(delta.base_size, 11);
    assert_eq!(delta.result_size, 17);
    assert_eq!(delta.result_size as usize, out.len());
    assert_eq!(
        delta.instructions,
        vec![
            DeltaInstruction::Copy { src_offset: 0, len: 5 },
            DeltaInstruction::Insert { bytes: b" there".to_vec() },
            DeltaInstruction::Copy { src_offset: 5, len: 6 },
        ]
    );
    let by_hand = Delta {
        base_size: 11,
        result_size: 17,
        instructions: vec![
            DeltaInstruction::Copy { src_offset: 0, len: 5 },
            DeltaInstruction::Insert { bytes: b" there".to_vec() },
            DeltaInstruction::Copy { src_offset: 5, len: 6 },
        ],
    };
    assert_eq!(by_hand.apply(b"hello world").unwrap(), b"hello there world");
}

#[test]
fn delta_instruction_forms() {
    assert_eq!(
        read_instruction(&[0xff, 1, 2, 3, 4, 5, 6, 7, 9]),
        Some((DeltaInstruction::Copy { src_offset: 0x0403_0201, len: 0x07_0605 }, 8))
    );
    assert_eq!(
        read_instruction(&[0x80, 9]),
        Some((DeltaInstruction::Copy { src_offset: 0, len: 0x1_0000 }, 1))
    );
    assert_eq!(
        read_instruction(&[0x8a, 0xab, 0xcd]),
        Some((DeltaInstruction::Copy { src_offset: 0xcd00_ab00, len: 0x1_0000 }, 3))
    );
    assert_eq!(
        read_instruction(&[0xa0, 0x02]),
        Some((DeltaInstruction::Copy { src_offset: 0, len: 0x200 }, 2))
    );
    assert_eq!(
        read_instruction(&[0x90, 0x00]),
        Some((DeltaInstruction::Copy { src_offset: 0, len: 0 }, 2))
    );
    assert_eq!(
        read_instruction(&[0x03, b'a', b'b', b'c', b'd']),
        Some((DeltaInstruction::Insert { bytes: b"abc".to_vec() }, 4))
    );
    assert_eq!(read_instruction(&[]), None);
    assert_eq!(read_instruction(&[0x00, 1]), None);
    assert_eq!(read_instruction(&[0x03, b'a', b'b']), None);
    assert_eq!(read_instruction(&[0x91, 5]), None);
    assert_eq!(read_instruction(&[0xc0]), None);
    assert_eq!(
        read_instruction(&[0xc0, 5]),
        Some((DeltaInstruction::Copy { src_offset: 0, len: 0x5_0000 }, 2))
    );
    let long = vec![0x7f; 128];
    assert_eq!(
        read_instruction(&long),
        Some((DeltaInstruction::Insert { bytes: vec![0x7f; 127] }, 128))
    );
}

#[test]
fn delta_errors() {
    assert_eq!(apply_delta(b"hello world!", &hello_delta()), Err(Error::DeltaBaseSizeMismatch));
    assert_eq!(apply_delta(b"hello worl", &hello_delta()), Err(Error::DeltaBaseSizeMismatch));
    let mut longer = hello_delta();
    longer[1] = 18;
    assert_eq!(apply_delta(b"hello world", &longer), Err(Error::DeltaSizeMismatch));
    let mut shorter = hello_delta();
    shorter[1] = 16;
    assert_eq!(apply_delta(b"hello world", &shorter), Err(Error::DeltaSizeMismatch));
    assert_eq!(apply_delta(b"hello world", &[11, 6, 0x91, 6, 6]), Err(Error::MalformedDelta));
    assert_eq!(apply_delta(b"hello world", &[11, 5, 0x91, 6, 5]), Ok(b"world".to_vec()));
    assert_eq!(apply_delta(b"hello world", &[11, 0]), Ok(Vec::new()));
    assert_eq!(apply_delta(b"", &[0, 2, 2, b'h', b'i']), Ok(b"hi".to_vec()));
    assert_eq!(apply_delta(b"hello world", &[11, 3, 0x00]), Err(Error::MalformedDelta));
    assert_eq!(apply_delta(b"hello world", &[11, 3, 5, b'a']), Err(Error::MalformedDelta));
    assert_eq!(apply_delta(b"hello world", &[11]), Err(Error::MalformedDelta));
    assert_eq!(apply_delta(b"hello world", &[]), Err(Error::MalformedDelta));
    assert_eq!(apply_delta(b"hello world", &[0x8b]), Err(Error::MalformedDelta));
    assert_eq!(Delta::parse(&[0x8b, 0x00, 0x80]), Err(Error::MalformedDelta));
    let default_copy = apply_delta(&vec![7u8; 0x1_0000], &[0x80, 0x80, 0x04, 0x80, 0x80, 0x04, 0x80]);
    assert_eq!(default_copy, Ok(vec![7u8; 0x1_0000]));
}

#[test]
fn index_fanout_invariant() {
    let lines: Vec<(object::Hash, u32, u64)> = (0u32..500)
        .map(|i| (object::Hash::sum(&i.to_be_bytes()), i, 12 + i as u64))
        .collect();
    let index = PackIndex::parse(&build_index(&lines)).unwrap();
    assert_eq!(index.object_count(), 500);
    assert_eq!(index.fanout(255), 500);
    for b in 0u8..255 {
        assert!(index.fanout(b) <= index.fanout(b + 1));
    }
    for i in 0..500usize {
        let e = index.entry(i).unwrap();
        let first = e.hash.bytes()[0];
        assert!((i as u32) < index.fanout(first));
        if first > 0 {
            assert!(index.fanout(first - 1) <= i as u32);
        }
        if i > 0 {
            assert!(!bytes_before(e.hash.bytes(), index.entry(i - 1).unwrap().hash.bytes()));
        }
    }
    assert!(index.entry(500).is_none());
    for (hash, crc, offset) in &lines {
        assert_eq!(index.find(hash), Some(*offset));
        let at = (0..500).find(|&i| index.entry(i).unwrap().hash == *hash).unwrap();
        assert_eq!(index.entry(at).unwrap().crc32, *crc);
    }
    assert_eq!(index.find(&object::Hash::sum(b"absent")), None);
}

#[test]
fn empty_index() {
    let index = PackIndex::parse(&build_index(&[])).unwrap();
    assert_eq!(index.object_count(), 0);
    assert_eq!(index.fanout(0), 0);
    assert_eq!(index.find(&object::Hash::sum(b"x")), None);
    assert_eq!(index.find(&object::Hash::from(&[0u8; 20]).unwrap()), None);
    assert_eq!(index.find(&object::Hash::from(&[0xffu8; 20]).unwrap()), None);
}

#[test]
fn index_with_large_offsets() {
    let a = object::Hash::from(&[0x00u8; 20]).unwrap();
    let b = object::Hash::from(&[0x7fu8; 20]).unwrap();
    let c = object::Hash::from(&[0xffu8; 20]).unwrap();
    let lines = [(a, 1, 0x7fff_ffff), (b, 2, 0x8000_0000), (c, 3, 0x1_2345_6789_abcd)];
    let bytes = build_index(&lines);
    let index = PackIndex::parse(&bytes).unwrap();
    assert_eq!(index.find(&a), Some(0x7fff_ffff));
    assert_eq!(index.find(&b), Some(0x8000_0000));
    assert_eq!(index.find(&c), Some(0x1_2345_6789_abcd));
    assert_eq!(index.fanout(0), 1);
    assert_eq!(index.fanout(0x7e), 1);
    assert_eq!(index.fanout(0x7f), 2);
    assert_eq!(index.fanout(0xfe), 2);
    assert_eq!(index.fanout(0xff), 3);
    let mut short = bytes.clone();
    short.truncate(bytes.len() - 8);
    assert_eq!(PackIndex::parse(&short), Err(Error::MalformedIndex));
}

#[test]
fn index_errors() {
    let a = object::Hash::from(&[0x10u8; 20]).unwrap();
    let b = object::Hash::from(&[0x20u8; 20]).unwrap();
    let good = build_index(&[(a, 1, 12), (b, 2, 40)]);
    assert!(PackIndex::parse(&good).is_ok());
    assert_eq!(PackIndex::parse(&[]), Err(Error::MalformedIndex));
    assert_eq!(PackIndex::parse(&good[..7]), Err(Error::MalformedIndex));
    assert_eq!(PackIndex::parse(&good[..8]), Err(Error::MalformedIndex));
    assert_eq!(PackIndex::parse(&good[..1031]), Err(Error::MalformedIndex));
    assert_eq!(PackIndex::parse(&good[..good.len() - 1]), Err(Error::MalformedIndex));
    let mut version = good.clone();
    version[7] = 3;
    assert_eq!(PackIndex::parse(&version), Err(Error::UnsupportedVersion));
    assert_eq!(PackIndex::parse(&version[..8]), Err(Error::UnsupportedVersion));
    let mut swapped = good.clone();
    swapped[1032] = 0x20;
    swapped[1052] = 0x10;
    assert_eq!(PackIndex::parse(&swapped), Err(Error::MalformedIndex));
    let mut wrong_bucket = good.clone();
    wrong_bucket[1032] = 0x11;
    assert_eq!(PackIndex::parse(&wrong_bucket), Err(Error::MalformedIndex));
    let mut fanout_down = good.clone();
    fanout_down[8 + 4 * 0x30 + 3] = 1;
    assert_eq!(PackIndex::parse(&fanout_down), Err(Error::MalformedIndex));
    let mut count_up = good.clone();
    count_up[8 + 4 * 255 + 3] = 3;
    assert_eq!(PackIndex::parse(&count_up), Err(Error::MalformedIndex));
    let mut no_large = good.clone();
    no_large[1032 + 24 * 2] = 0x80;
    assert_eq!(PackIndex::parse(&no_large), Err(Error::MalformedIndex));
    let twice = build_index(&[(a, 1, 12), (a, 2, 40)]);
    let index = PackIndex::parse(&twice).unwrap();
    assert_eq!(index.find(&a), Some(12));
}

#[test]
fn pack_headers() {
    assert_eq!(parse_pack_header(&pack_start(7), 7), Ok(7));
    assert_eq!(parse_pack_header(&pack_start(7), 8), Err(Error::ObjectCountMismatch));
    assert_eq!(parse_pack_header(&pack_start(7)[..11], 7), Err(Error::MalformedPack));
    let mut magic = pack_start(7);
    magic[0] = b'p';
    assert_eq!(parse_pack_header(&magic, 7), Err(Error::MalformedPack));
    let mut version = pack_start(7);
    version[7] = 3;
    assert_eq!(parse_pack_header(&version, 7), Err(Error::UnsupportedVersion));
    assert_eq!(parse_pack_header(&version, 8), Err(Error::UnsupportedVersion));
}

#[test]
fn pack_new_checks_both_files() {
    let built = build_pack();
    let pack = Pack::new(built.index.clone(), built.pack.clone()).unwrap();
    assert_eq!(pack.get_obj_count(), 4);
    assert_eq!(pack.get_fanout_i(255), 4);
    assert_eq!(pack.max_depth(), 50);
    assert_eq!(pack.bytes(), &built.pack[..]);
    assert_eq!(pack.index().object_count(), 4);
    for b in 0u8..255 {
        assert!(pack.get_fanout_i(b) <= pack.get_fanout_i(b + 1));
    }
    let first = built.base.bytes()[0];
    assert!(pack.get_fanout_i(first) >= 1);
    assert_eq!(
        Pack::new(build_index(&[]), built.pack.clone()),
        Err(Error::ObjectCountMismatch)
    );
    assert_eq!(Pack::new(built.index.clone(), Vec::new()), Err(Error::MalformedPack));
    assert_eq!(Pack::new(Vec::new(), built.pack.clone()), Err(Error::MalformedIndex));
    let mut version = built.pack.clone();
    version[7] = 1;
    assert_eq!(Pack::new(built.index.clone(), version), Err(Error::UnsupportedVersion));
    let mut index_version = built.index.clone();
    index_version[7] = 1;
    assert_eq!(Pack::new(index_version, built.pack.clone()), Err(Error::UnsupportedVersion));
    assert!(Pack::new(build_index(&[]), pack_start(0)).is_ok());
}

#[test]
fn pack_gives_whole_objects_and_deltas() {
    let built = build_pack();
    let pack = Pack::new(built.index.clone(), built.pack.clone()).unwrap();
    assert_eq!(pack.get_obj(built.base), Ok(Some(blob(b"hello world"))));
    assert_eq!(pack.get_obj(built.by_offset), Ok(Some(blob(b"hello there world"))));
    assert_eq!(pack.get_obj(built.by_hash), Ok(Some(blob(b"hello there"))));
    assert_eq!(pack.get_obj(built.tree), Ok(Some(rustgit::object::parse_object(b"tree 0\0").unwrap())));
    assert_eq!(pack.get_obj(object::Hash::sum(b"absent")), Ok(None));
    assert_eq!(pack.get_obj_offset(&built.tree), Some(12));
    assert_eq!(pack.get_obj_offset(&object::Hash::sum(b"absent")), None);
    for hash in [built.base, built.by_offset, built.by_hash, built.tree] {
        assert_eq!(pack.get_obj(hash).unwrap().unwrap().hash(), hash);
    }
    let offset = pack.get_obj_offset(&built.by_offset).unwrap();
    assert_eq!(pack.object_at(offset), Ok(blob(b"hello there world")));
    let made = pack.get_obj(built.by_offset).unwrap().unwrap();
    assert_eq!(made.pack(), b"blob 17\0hello there world");
    assert_eq!(made.body().len(), 17);
    assert_eq!(
        hello_delta(),
        vec![0x0b, 0x11, 0x90, 0x05, 0x06, b' ', b't', b'h', b'e', b'r', b'e', 0x91, 0x05, 0x06]
    );
}

#[test]
fn delta_chains_have_a_limit() {
    let built = build_pack();
    let deep = |d: usize| Pack::new(built.index.clone(), built.pack.clone()).unwrap().with_max_depth(d);
    assert_eq!(deep(0).get_obj(built.base), Ok(Some(blob(b"hello world"))));
    assert_eq!(deep(0).get_obj(built.by_offset), Err(Error::DeltaChainTooDeep));
    assert_eq!(deep(1).get_obj(built.by_offset), Ok(Some(blob(b"hello there world"))));
    assert_eq!(deep(1).get_obj(built.by_hash), Err(Error::DeltaChainTooDeep));
    assert_eq!(deep(2).get_obj(built.by_hash), Ok(Some(blob(b"hello there"))));
    assert_eq!(deep(2).max_depth(), 2);
}

#[test]
fn delta_on_itself_is_too_deep() {
    let target = object::Hash::sum(b"loop");
    let mut pack = pack_start(1);
    pack.extend_from_slice(&ref_entry(&target, &[0, 0]));
    let whole = Pack::new(build_index(&[(target, 0, 12)]), pack).unwrap();
    assert_eq!(whole.get_obj(target), Err(Error::DeltaChainTooDeep));
}

#[test]
fn pack_entry_errors() {
    let target = object::Hash::sum(b"target");
    let one = |entry: Vec<u8>, offset: u64| {
        let mut pack = pack_start(1);
        pack.extend_from_slice(&entry);
        Pack::new(build_index(&[(target, 0, offset)]), pack).unwrap().get_obj(target)
    };
    assert_eq!(one(whole_entry(ObjType::Blob, b"abc"), 12), Ok(Some(blob(b"abc"))));
    assert_eq!(one(whole_entry(ObjType::Blob, b"abc"), 1000), Err(Error::MalformedPack));
    assert_eq!(one(whole_entry(ObjType::Tag, b"abc"), 12), Err(Error::UnrecognizedHeader));
    assert_eq!(one(vec![0x00], 12), Err(Error::InvalidObjectType));
    assert_eq!(one(vec![0x53], 12), Err(Error::InvalidObjectType));
    let mut wrong_size = encode_pack_obj_header(ObjType::Blob, 4);
    wrong_size.extend_from_slice(&util::encode(b"abc").unwrap());
    assert_eq!(one(wrong_size, 12), Err(Error::SizeMismatch));
    let mut cut = whole_entry(ObjType::Blob, b"abc");
    cut.truncate(cut.len() - 2);
    assert_eq!(one(cut, 12), Err(Error::CorruptStream));
    assert_eq!(one(whole_entry(ObjType::Tree, b"x"), 12), Err(Error::TruncatedTreeEntry));
    assert_eq!(
        one(ref_entry(&object::Hash::sum(b"nowhere"), &[0, 0]), 12),
        Err(Error::MalformedPack)
    );
    let with_base = |delta: &[u8]| {
        let mut pack = pack_start(2);
        pack.extend_from_slice(&whole_entry(ObjType::Blob, b"hello world"));
        let at = pack.len() as u64;
        pack.extend_from_slice(&ofs_entry(at - 12, delta));
        let index = build_index(&[(hash_of(Type::Blob, b"hello world"), 0, 12), (target, 0, at)]);
        Pack::new(index, pack).unwrap().get_obj(target)
    };
    assert_eq!(with_base(&hello_delta()), Ok(Some(blob(b"hello there world"))));
    assert_eq!(with_base(&[10, 0]), Err(Error::DeltaBaseSizeMismatch));
    assert_eq!(with_base(&[11, 1]), Err(Error::DeltaSizeMismatch));
    assert_eq!(with_base(&[11, 1, 0x00]), Err(Error::MalformedDelta));
    assert_eq!(with_base(&[11, 1, 0x91, 11, 1]), Err(Error::MalformedDelta));
}

#[test]
fn parse_pack_reads_in_pack_order() {
    let built = build_pack();
    let objects = parse_pack(&built.index, &built.pack).unwrap();
    assert_eq!(
        objects,
        vec![
            rustgit::object::parse_object(b"tree 0\0").unwrap(),
            blob(b"hello world"),
            blob(b"hello there world"),
            blob(b"hello there"),
        ]
    );
    let pack = Pack::new(built.index.clone(), built.pack.clone()).unwrap();
    let offsets = pack.sorted_offsets();
    assert_eq!(offsets.len(), 4);
    assert_eq!(offsets[0], 12);
    assert!(offsets.windows(2).all(|w| w[0] < w[1]));
    assert_eq!(pack.objects().unwrap(), objects);
    assert_eq!(parse_pack(&build_index(&[]), &pack_start(0)), Ok(Vec::new()));
    assert_eq!(parse_pack(&built.index, &pack_start(4)), Err(Error::MalformedPack));
    assert_eq!(parse_pack(&built.index, &pack_start(3)), Err(Error::ObjectCountMismatch));
    assert_eq!(parse_pack(&[], &built.pack), Err(Error::MalformedIndex));
}

#[test]
fn missing_hash_is_no_error() {
    let mut repo = Repo::new();
    assert_eq!(repo.get(object::Hash::sum(b"absent")), Ok(None));
    let built = build_pack();
    repo.add_pack(Pack::new(built.index.clone(), built.pack.clone()).unwrap());
    repo.add(blob(b"loose"));
    for i in 0u32..200 {
        assert_eq!(repo.get(object::Hash::sum(&i.to_be_bytes())), Ok(None));
    }
    assert_eq!(repo.get(object::Hash::from(&[0u8; 20]).unwrap()), Ok(None));
    assert_eq!(repo.get(object::Hash::from(&[0xffu8; 20]).unwrap()), Ok(None));
}

#[test]
fn repo_holds_loose_objects() {
    let mut repo = Repo::new();
    assert_eq!((repo.loose_count(), repo.pack_count()), (0, 0));
    let a = repo.add(blob(b"a"));
    let b = repo.add(blob(b"b"));
    assert_eq!(a, hash_of(Type::Blob, b"a"));
    assert_eq!(repo.loose_count(), 2);
    assert_eq!(repo.add(blob(b"a")), a);
    assert_eq!(repo.loose_count(), 2);
    assert_eq!(repo.get(a), Ok(Some(blob(b"a"))));
    assert_eq!(repo.get(b), Ok(Some(blob(b"b"))));
    let packed = blob(b"c").encode().unwrap();
    let c = repo.add_loose(&packed).unwrap();
    assert_eq!(c, hash_of(Type::Blob, b"c"));
    assert_eq!(repo.get(c), Ok(Some(blob(b"c"))));
    assert_eq!(repo.loose_count(), 3);
    assert_eq!(repo.add_loose(&packed[..packed.len() - 1]), Err(Error::CorruptStream));
    assert_eq!(repo.add_loose(&util::encode(b"junk").unwrap()), Err(Error::UnrecognizedHeader));
    assert_eq!(repo.loose_count(), 3);
    assert_eq!(repo.get(a), Ok(Some(blob(b"a"))));
}

#[test]
fn loose_objects_come_before_packs() {
    let built = build_pack();
    let mut repo = Repo::new();
    repo.add_pack(Pack::new(built.index.clone(), built.pack.clone()).unwrap());
    assert_eq!(repo.pack_count(), 1);
    assert_eq!(repo.get(built.by_hash), Ok(Some(blob(b"hello there"))));
    assert_eq!(repo.get(built.base), Ok(Some(blob(b"hello world"))));
    let broken = {
        let mut pack = pack_start(1);
        pack.extend_from_slice(&whole_entry(ObjType::Tag, b"x"));
        Pack::new(build_index(&[(built.base, 0, 12)]), pack).unwrap()
    };
    let mut first_wins = Repo::new();
    first_wins.add_pack(broken);
    first_wins.add_pack(Pack::new(built.index.clone(), built.pack.clone()).unwrap());
    assert_eq!(first_wins.get(built.base), Err(Error::UnrecognizedHeader));
    assert_eq!(first_wins.get(built.tree).unwrap().unwrap().hash(), built.tree);
    first_wins.add(blob(b"hello world"));
    assert_eq!(first_wins.get(built.base), Ok(Some(blob(b"hello world"))));
}

#[test]
fn delta_base_found_across_the_store() {
    let base = hash_of(Type::Blob, b"hello world");
    let target = hash_of(Type::Blob, b"hello there world");
    let mut thin = pack_start(1);
    thin.extend_from_slice(&ref_entry(&base, &hello_delta()));
    let index = build_index(&[(target, 0, 12)]);
    let alone = Pack::new(index.clone(), thin.clone()).unwrap();
    assert_eq!(alone.get_obj(target), Err(Error::MalformedPack));
    let mut repo = Repo::new();
    repo.add_pack(Pack::new(index.clone(), thin.clone()).unwrap());
    assert_eq!(repo.get(target), Err(Error::MalformedPack));
    repo.add(blob(b"hello world"));
    assert_eq!(repo.get(target), Ok(Some(blob(b"hello there world"))));
    let built = build_pack();
    let mut two = Repo::new();
    two.add_pack(Pack::new(index, thin).unwrap());
    two.add_pack(Pack::new(built.index, built.pack).unwrap());
    assert_eq!(two.get(target), Ok(Some(blob(b"hello there world"))));
}

#[test]
fn pack_above_two_gib() {
    let pack = vec![0u8; 0x8000_0001];
    assert_eq!(rustgit::pack::check_pack(&build_index(&[]), &pack), Err(Error::PackTooLarge));
    assert_eq!(parse_pack(&build_index(&[]), &pack), Err(Error::PackTooLarge));
    assert_eq!(rustgit::pack::check_pack(&[], &pack), Err(Error::MalformedIndex));
    assert_eq!(
        rustgit::pack::check_pack(&build_index(&[]), &pack[..0x8000_0000]),
        Err(Error::MalformedPack)
    );
}

#[test]
fn store_lists_loose_objects() {
    let mut repo = Repo::new();
    let a = repo.add(blob(b"a"));
    let b = repo.add(blob(b"b"));
    assert_eq!(repo.loose_object(0).unwrap().hash, a);
    assert_eq!(repo.loose_object(1).unwrap().hash, b);
    assert_eq!(repo.loose_object(1).unwrap().obj, blob(b"b"));
    assert!(repo.loose_object(2).is_none());
}

#[test]
fn tree_order_can_be_asked() {
    let hash = object::Hash::sum(b"x");
    let entry = |mode: &str, name: &str| {
        rustgit::object::TreeEntry::new(mode.to_string(), name.to_string(), hash).unwrap()
    };
    let sorted = rustgit::object::Tree::new(vec![
        entry("100644", "a"),
        entry("100644", "a.txt"),
        entry("40000", "a"),
        entry("100644", "a0"),
        entry("100644", "b"),
    ]);
    assert!(sorted.is_sorted());
    assert_eq!(entry("40000", "a").sort_key(), b"a/");
    assert_eq!(entry("100644", "a").sort_key(), b"a");
    assert_eq!(entry("040000", "a").sort_key(), b"a");
    let unsorted = rustgit::object::Tree::new(vec![entry("100644", "b"), entry("100644", "a")]);
    assert!(!unsorted.is_sorted());
    let dir_late = rustgit::object::Tree::new(vec![entry("100644", "a0"), entry("40000", "a")]);
    assert!(!dir_late.is_sorted());
    assert!(rustgit::object::Tree::new(Vec::new()).is_sorted());
    assert!(rustgit::object::Tree::new(vec![entry("1", "z")]).is_sorted());
    assert!(bytes_before(b"a", b"b"));
    assert!(bytes_before(b"a", b"aa"));
    assert!(!bytes_before(b"a", b"a"));
    assert!(!bytes_before(b"b", b"a"));
    assert!(bytes_before(b"", b"a"));
}
