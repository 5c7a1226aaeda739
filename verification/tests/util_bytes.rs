use rustgit::error::Error;
use rustgit::text;
use rustgit::util;

#[test]
fn utf8_reads_text() {
    assert_eq!(util::utf8(b"hello"), Ok("hello".to_string()));
    assert_eq!(util::utf8("zażółć".as_bytes()), Ok("zażółć".to_string()));
    assert_eq!(util::utf8(b""), Ok(String::new()));
    assert_eq!(util::utf8(&[0xff]), Err(Error::InvalidUtf8));
    assert_eq!(util::utf8(&[b'a', 0xc3]), Err(Error::InvalidUtf8));
    assert_eq!(util::utf8(&[0xed, 0xa0, 0x80]), Err(Error::InvalidUtf8));
}

#[test]
fn big_endian_words() {
    assert_eq!(util::be_u32(&[0, 0, 0, 0]), 0);
    assert_eq!(util::be_u32(&[0x12, 0x34, 0x56, 0x78]), 0x1234_5678);
    assert_eq!(util::be_u32(&[0xff, 0xff, 0xff, 0xff, 0x00]), u32::MAX);
    assert_eq!(util::be_u32(&[0, 0, 1, 0]), 256);
}

#[test]
fn base_128_numbers() {
    assert_eq!(util::var_u32_tail(&[0x05]), Some((5, &[][..])));
    assert_eq!(util::var_u32_tail(&[0x85, 0x01, 0xaa]), Some((5 + 128, &[0xaa][..])));
    assert_eq!(util::var_u32_tail(&[0xff, 0xff, 0xff, 0xff, 0x0f]), Some((u32::MAX, &[][..])));
    assert_eq!(util::var_u32_tail(&[0xff, 0xff, 0xff, 0xff, 0x10]), None);
    assert_eq!(util::var_u32_tail(&[0x80, 0x80, 0x80, 0x80, 0x80, 0x80, 0x00, 9]), Some((0, &[9][..])));
    assert_eq!(util::var_u32_tail(&[]), None);
    assert_eq!(util::var_u32_tail(&[0x80]), None);
    assert_eq!(util::var_u32_tail(&[0x80, 0xff]), None);
    assert_eq!(util::read_varint(&[0x91, 0x2e]), Some((0x11 + (0x2e << 7), 2)));
    assert_eq!(
        util::read_varint(&[0xff, 0xff, 0xff, 0xff, 0xff, 0xff, 0xff, 0xff, 0xff, 0x01]),
        Some((u64::MAX, 10))
    );
    assert_eq!(
        util::read_varint(&[0xff, 0xff, 0xff, 0xff, 0xff, 0xff, 0xff, 0xff, 0xff, 0x02]),
        None
    );
}

#[test]
fn groups_after_the_first_byte() {
    assert_eq!(util::varint(&[0x05, 7]), Some((vec![], &[7][..])));
    assert_eq!(util::varint(&[0x95, 0x81, 0x02, 7, 8]), Some((vec![0x01, 0x02], &[7, 8][..])));
    assert_eq!(util::varint(&[0x95, 0x81]), None);
    assert_eq!(util::varint(&[]), None);
    assert_eq!(util::var_u32(&[]), Some(0));
    assert_eq!(util::var_u32(&[0x01, 0x02]), Some(1 + (2 << 7)));
    assert_eq!(util::var_u32(&[0x81, 0x82]), Some(1 + (2 << 7)));
    assert_eq!(util::var_u32(&[0x7f, 0x7f, 0x7f, 0x7f, 0x0f]), Some(u32::MAX));
    assert_eq!(util::var_u32(&[0x7f, 0x7f, 0x7f, 0x7f, 0x10]), None);
    assert_eq!(util::var_u32(&[0, 0, 0, 0, 0, 0, 0]), Some(0));
    assert_eq!(util::fold_groups(&[0x7f], 126), None);
    assert_eq!(util::fold_groups(&[0x7f], 127), Some(127));
    assert_eq!(util::leading_run(&[0x80, 0xff, 0x7f, 0x80]), 2);
}

#[test]
fn decimal_numbers() {
    assert_eq!(text::parse_decimal(b"0"), Some(0));
    assert_eq!(text::parse_decimal(b"0012"), Some(12));
    assert_eq!(text::parse_decimal(b"18446744073709551615"), Some(u64::MAX));
    assert_eq!(text::parse_decimal(b"18446744073709551616"), None);
    assert_eq!(text::parse_decimal(b"99999999999999999999"), None);
    assert_eq!(text::parse_decimal(b""), None);
    assert_eq!(text::parse_decimal(b"1 "), None);
    assert_eq!(text::parse_decimal(b"+1"), None);
    assert_eq!(text::format_decimal(0), b"0");
    assert_eq!(text::format_decimal(10), b"10");
    assert_eq!(text::format_decimal(907), b"907");
    assert_eq!(text::format_decimal(u64::MAX), b"18446744073709551615");
}

#[test]
fn searching_bytes() {
    assert_eq!(text::position(b"abc", b'b'), 1);
    assert_eq!(text::position(b"abcb", b'b'), 1);
    assert_eq!(text::position(b"abc", b'x'), 3);
    assert_eq!(text::position(b"", b'x'), 0);
    assert!(text::starts_with(b"tree 1", b"tree"));
    assert!(text::starts_with(b"tree", b""));
    assert!(!text::starts_with(b"tre", b"tree"));
    assert!(!text::starts_with(b"trie 1", b"tree"));
    assert!(text::lacks(b"abc", b'x'));
    assert!(!text::lacks(b"abc", b'c'));
}
