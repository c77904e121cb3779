//! Round-trip and rejection tests for canonical space-id parsing.

use std::str::FromStr;

use comiket_tsp::error::CometError;
use comiket_tsp::space::{Building, Side, SpaceId};

/// Parse `s`, assert it re-displays to exactly `s`, and return the id.
fn roundtrip(s: &str) -> SpaceId {
    let id = SpaceId::from_str(s).unwrap_or_else(|e| panic!("{s:?} should parse: {e:?}"));
    assert_eq!(id.to_string(), s, "canonical round-trip for {s:?}");
    id
}

#[test]
fn parses_katakana_block() {
    let id = roundtrip("E4-ア-31a");
    assert_eq!(id.building, Building::East);
    assert_eq!(id.hall, 4);
    assert_eq!(id.block, "ア");
    assert_eq!(id.number, 31);
    assert_eq!(id.side, Side::A);
}

#[test]
fn parses_hiragana_block_side_b() {
    let id = roundtrip("W1-あ-12b");
    assert_eq!(id.building, Building::West);
    assert_eq!(id.hall, 1);
    assert_eq!(id.block, "あ");
    assert_eq!(id.number, 12);
    assert_eq!(id.side, Side::B);
}

#[test]
fn parses_latin_block_and_south() {
    let id = roundtrip("S2-A-7a");
    assert_eq!(id.building, Building::South);
    assert_eq!(id.hall, 2);
    assert_eq!(id.block, "A");
    assert_eq!(id.number, 7);
    assert_eq!(id.side, Side::A);
}

#[test]
fn roundtrips_lowercase_latin_block() {
    roundtrip("E5-t-100b");
}

#[test]
fn accepts_lenient_case_and_normalizes() {
    // Lowercase building and uppercase side are accepted, then normalized.
    let id = SpaceId::from_str("e4-ア-31A").expect("lenient case should parse");
    assert_eq!(id.to_string(), "E4-ア-31a");
}

#[test]
fn rejects_bad_building() {
    assert!(SpaceId::from_str("X4-ア-31a").is_err());
}

#[test]
fn rejects_missing_parts() {
    assert!(SpaceId::from_str("E4-31a").is_err());
    assert!(SpaceId::from_str("E4-ア").is_err());
}

#[test]
fn rejects_bad_side() {
    assert!(SpaceId::from_str("E4-ア-31c").is_err());
}

#[test]
fn rejects_missing_number() {
    assert!(SpaceId::from_str("E4-ア-a").is_err());
}

#[test]
fn rejects_non_numeric_hall() {
    assert!(SpaceId::from_str("Ex-ア-31a").is_err());
}

/// The reason a parse was rejected, or a panic when it was accepted.
fn reason_of(s: &str) -> String {
    match SpaceId::parse(s) {
        Err(CometError::SpaceParse { input, reason }) => {
            assert_eq!(input, s);
            reason
        }
        other => panic!("{s:?} should be rejected as a space id, got {other:?}"),
    }
}

#[test]
fn each_rejection_names_its_reason() {
    assert_eq!(
        reason_of("E4-31a"),
        "expected '<building><hall>-<block>-<number><side>' (three '-'-separated parts)"
    );
    assert_eq!(reason_of("X4-ア-31a"), "building must start with E, W, or S");
    assert_eq!(reason_of("-ア-31a"), "building must start with E, W, or S");
    assert_eq!(reason_of("Ex-ア-31a"), "hall must be an integer");
    assert_eq!(reason_of("E256-ア-31a"), "hall must be an integer");
    assert_eq!(reason_of("E4--31a"), "block must not be empty");
    assert_eq!(reason_of("E4-ア-"), "missing number and side");
    assert_eq!(reason_of("E4-ア-31c"), "side must be a or b");
    assert_eq!(reason_of("E4-ア-a"), "number must be a u16");
    assert_eq!(reason_of("E4-ア-65536a"), "number must be a u16");
}

#[test]
fn number_and_hall_follow_integer_parsing() {
    // A leading `+` and leading zeros are what `u8`/`u16` parsing accepts.
    let id = SpaceId::parse("E+04-ア-007b").expect("should parse");
    assert_eq!(id.hall, 4);
    assert_eq!(id.number, 7);
    assert_eq!(id.to_string(), "E4-ア-7b");
    let top = roundtrip("S255-z-65535a");
    assert_eq!(top.hall, 255);
    assert_eq!(top.number, 65535);
}

#[test]
fn building_and_side_letters_round_trip() {
    for b in [Building::East, Building::West, Building::South] {
        assert_eq!(Building::from_char(b.as_char()), Some(b));
        assert_eq!(Building::from_char(b.as_char().to_ascii_lowercase()), Some(b));
    }
    for s in [Side::A, Side::B] {
        assert_eq!(Side::from_char(s.as_char()), Some(s));
        assert_eq!(Side::from_char(s.as_char().to_ascii_uppercase()), Some(s));
    }
    assert_eq!(Building::from_char('N'), None);
    assert_eq!(Side::from_char('c'), None);
    assert_eq!(Building::East.as_char(), 'E');
    assert_eq!(Side::B.as_char(), 'b');
}
