//! Reading words, literals, strings and enumerants.

use rspirv::decoder::Decoder;
use rspirv::grammar::{Category, EnumKind, Enumerant, Enumeration, Grammar};
use rspirv::mr::ModuleHeader;
use rspirv::reader::split_into_word_count_and_opcode;
use rspirv::spirv::{swap_bytes, MAGIC_NUMBER};
use rspirv::text::append_decimal;
use rspirv::version::{create_version_from_word, create_word_from_version};
use rspirv::DecodeError;

#[test]
fn words_are_little_endian() {
    let bytes = [0x12, 0x34, 0x56, 0x78, 0x90, 0xab, 0xcd, 0xef];
    let mut d = Decoder::new(&bytes);
    assert_eq!(0, d.offset());
    assert_eq!(Ok(0x78563412), d.word());
    assert_eq!(4, d.offset());
    assert_eq!(Ok(0xefcdab90), d.word());
    assert_eq!(8, d.offset());
    assert_eq!(Err(DecodeError::StreamExpected(8)), d.word());
    assert_eq!(8, d.offset());
}

#[test]
fn an_incomplete_word_is_missing() {
    for n in 0..4 {
        let bytes = vec![0xff; n];
        let mut d = Decoder::new(&bytes);
        assert_eq!(Err(DecodeError::StreamExpected(0)), d.word());
        assert_eq!(0, d.offset());
    }
}

#[test]
fn several_words_at_once() {
    let bytes = [1, 0, 0, 0, 2, 0, 0, 0, 3, 0, 0, 0];
    let mut d = Decoder::new(&bytes);
    assert_eq!(Ok(vec![]), d.words(0));
    assert_eq!(Ok(vec![1, 2]), d.words(2));
    assert_eq!(Err(DecodeError::StreamExpected(12)), d.words(2));
    assert_eq!(12, d.offset());
}

#[test]
fn a_limit_is_looked_at_before_the_stream() {
    let bytes = [0; 8];
    let mut d = Decoder::new(&bytes);
    assert!(!d.limit_reached());
    d.set_limit(1);
    assert!(!d.limit_reached());
    assert_eq!(Ok(0), d.word());
    assert!(d.limit_reached());
    assert_eq!(Err(DecodeError::LimitReached(4)), d.word());
    d.clear_limit();
    assert!(!d.limit_reached());
    assert_eq!(Ok(0), d.word());
    d.set_limit(0);
    assert_eq!(Err(DecodeError::LimitReached(8)), d.word());
}

#[test]
fn a_missing_word_is_spent() {
    let bytes = [];
    let mut d = Decoder::new(&bytes);
    d.set_limit(1);
    assert_eq!(Err(DecodeError::StreamExpected(0)), d.word());
    assert!(d.limit_reached());
    assert_eq!(Err(DecodeError::LimitReached(0)), d.word());
}

#[test]
fn one_word_literals() {
    let bytes = [1, 2, 3, 4, 0, 0, 0xc0, 0x3f, 5, 0, 0, 0];
    let mut d = Decoder::new(&bytes);
    assert_eq!(Ok(0x04030201), d.id());
    assert_eq!(Ok(1.5f32.to_bits()), d.float32());
    assert_eq!(Ok(5), d.int32());
    assert_eq!(Err(DecodeError::StreamExpected(12)), d.int32());
}

#[test]
fn two_word_literals_have_the_low_word_first() {
    let mut bytes = vec![0x12, 0x34, 0x56, 0x78, 0x90, 0xab, 0xcd, 0xef];
    bytes.extend_from_slice(&(-0.25f64).to_bits().to_le_bytes());
    bytes.extend_from_slice(&[9, 0, 0, 0]);
    let mut d = Decoder::new(&bytes);
    assert_eq!(Ok(0xefcdab90_78563412), d.int64());
    assert_eq!(Ok((-0.25f64).to_bits()), d.float64());
    // The second word is missing.
    assert_eq!(Err(DecodeError::StreamExpected(20)), d.int64());
    assert_eq!(20, d.offset());
}

#[test]
fn a_limit_can_cut_a_two_word_literal() {
    let bytes = [0; 8];
    let mut d = Decoder::new(&bytes);
    d.set_limit(1);
    assert_eq!(Err(DecodeError::LimitReached(4)), d.int64());
}

#[test]
fn strings_end_with_nul() {
    let bytes = b"wow\0good\0\0\0\0ok\0\0";
    let mut d = Decoder::new(bytes);
    assert_eq!(Ok("wow".to_string()), d.string());
    assert_eq!(4, d.offset());
    assert_eq!(Ok("good".to_string()), d.string());
    assert_eq!(12, d.offset());
    assert_eq!(Ok("ok".to_string()), d.string());
    assert_eq!(16, d.offset());
}

#[test]
fn an_empty_string_takes_a_word() {
    let mut d = Decoder::new(b"\0\0\0\0\0\0\0\0");
    assert_eq!(Ok(String::new()), d.string());
    assert_eq!(4, d.offset());
}

#[test]
fn strings_are_utf8() {
    let mut bytes = "\u{e9}\u{4e2d}".as_bytes().to_vec();
    bytes.extend_from_slice(&[0, 0, 0]);
    assert_eq!(8, bytes.len());
    let mut d = Decoder::new(&bytes);
    let text = d.string().unwrap();
    assert_eq!(2, text.chars().count());
    assert_eq!("\u{e9}\u{4e2d}", text);
}

#[test]
fn bytes_that_are_not_utf8_are_no_string() {
    let bytes = [1, 0, 0, 0, 0xff, 0xfe, 0, 0, 7, 0, 0, 0];
    let mut d = Decoder::new(&bytes);
    assert_eq!(Ok(1), d.word());
    assert_eq!(Err(DecodeError::DecodeStringFailed(4)), d.string());
    // Its words are gone over all the same.
    assert_eq!(Ok(7), d.word());
}

#[test]
fn a_nul_inside_a_word_does_not_end_a_string() {
    let mut d = Decoder::new(b"a\0bc\0\0\0\0");
    assert_eq!(Ok("a\0bc".to_string()), d.string());
}

#[test]
fn a_string_without_an_end() {
    let mut d = Decoder::new(b"goodgood");
    assert_eq!(Err(DecodeError::StreamExpected(8)), d.string());
    let mut d = Decoder::new(b"goodgood\0\0\0\0");
    d.set_limit(2);
    assert_eq!(Err(DecodeError::LimitReached(8)), d.string());
}

fn enumerations() -> Grammar {
    let plain = |value| Enumerant { value, parameters: vec![] };
    Grammar::new(
        vec![],
        vec![
            Enumeration {
                kind: EnumKind::Dim,
                category: Category::Value,
                enumerants: vec![plain(0), plain(1), plain(6)],
            },
            Enumeration {
                kind: EnumKind::LoopControl,
                category: Category::Bit,
                enumerants: vec![plain(0), plain(1), plain(4)],
            },
        ],
    )
    .unwrap()
}

#[test]
fn enumerants_are_values() {
    let g = enumerations();
    let bytes = [6, 0, 0, 0, 2, 0, 0, 0];
    let mut d = Decoder::new(&bytes);
    assert_eq!(Ok(6), d.enumerant(&g, EnumKind::Dim));
    assert_eq!(
        Err(DecodeError::EnumerantUnknown(4, EnumKind::Dim, 2)),
        d.enumerant(&g, EnumKind::Dim)
    );
    assert_eq!(8, d.offset());
}

#[test]
fn enumerants_are_unions_of_bits() {
    let g = enumerations();
    let bytes = [5, 0, 0, 0, 0, 0, 0, 0, 6, 0, 0, 0];
    let mut d = Decoder::new(&bytes);
    assert_eq!(Ok(5), d.enumerant(&g, EnumKind::LoopControl));
    assert_eq!(Ok(0), d.enumerant(&g, EnumKind::LoopControl));
    assert_eq!(
        Err(DecodeError::EnumerantUnknown(8, EnumKind::LoopControl, 6)),
        d.enumerant(&g, EnumKind::LoopControl)
    );
}

#[test]
fn an_unknown_enumeration_has_no_enumerants() {
    let g = enumerations();
    let mut d = Decoder::new(&[0; 4]);
    assert_eq!(
        Err(DecodeError::EnumerantUnknown(0, EnumKind::Scope, 0)),
        d.enumerant(&g, EnumKind::Scope)
    );
}

#[test]
fn a_missing_enumerant_is_missing_from_the_stream() {
    let g = enumerations();
    let mut d = Decoder::new(&[0; 4]);
    d.set_limit(0);
    assert_eq!(Err(DecodeError::StreamExpected(0)), d.enumerant(&g, EnumKind::Dim));
}

#[test]
fn version_words() {
    assert_eq!((1, 3), create_version_from_word(0x0001_0300));
    assert_eq!((0xab, 0xcd), create_version_from_word(0x99ab_cd77));
    assert_eq!(0x0001_0000, create_word_from_version(1, 0));
    for (major, minor) in [(0, 0), (1, 6), (255, 0), (0, 255), (255, 255)] {
        let word = create_word_from_version(major, minor);
        assert_eq!((major, minor), create_version_from_word(word));
    }
}

#[test]
fn headers_have_versions() {
    let mut header = ModuleHeader::new(17);
    assert_eq!((0, 0), header.version());
    header.set_version(1, 2);
    assert_eq!((1, 2), header.version());
    assert_eq!(17, header.bound);
    assert_eq!(0x0001_0200, header.version);
}

#[test]
fn bytes_in_the_opposite_order() {
    assert_eq!(0x03022307, swap_bytes(MAGIC_NUMBER));
    assert_eq!(0x78563412, swap_bytes(0x12345678));
    assert_eq!(0xfffffffe, swap_bytes(swap_bytes(0xfffffffe)));
}

#[test]
fn first_words_split() {
    assert_eq!((3, 14), split_into_word_count_and_opcode(0x0003_000e));
    assert_eq!((0xffff, 0), split_into_word_count_and_opcode(0xffff_0000));
    assert_eq!((0, 0xffff), split_into_word_count_and_opcode(0x0000_ffff));
}

#[test]
fn decimal_notation() {
    for n in [0, 7, 9, 10, 42, 99, 100, 65535, 1234567890, usize::MAX] {
        let mut text = "n = ".to_string();
        append_decimal(&mut text, n);
        assert_eq!(format!("n = {}", n), text);
    }
}
