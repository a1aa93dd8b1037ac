use city_stats::fnv::fingerprint_of;
use city_stats::record::{DataLine, LineError};

#[test]
fn decodes_a_short_line() {
    let line = DataLine::parse(b"A;1.0").unwrap();
    assert_eq!(line.city(), b"A");
    assert_eq!(line.temperature().tenths(), 10);
    assert_eq!(line.key(), fingerprint_of(b"A"));
}

#[test]
fn decodes_each_delimiter_position() {
    let three = DataLine::parse(b"Hamburg;1.5").unwrap();
    assert_eq!(three.city(), b"Hamburg");
    assert_eq!(three.temperature().tenths(), 15);
    let four = DataLine::parse(b"Hamburg;12.5").unwrap();
    assert_eq!(four.city(), b"Hamburg");
    assert_eq!(four.temperature().tenths(), 125);
    let four_signed = DataLine::parse(b"Hamburg;-1.5").unwrap();
    assert_eq!(four_signed.temperature().tenths(), -15);
    let five = DataLine::parse(b"Hamburg;-12.5").unwrap();
    assert_eq!(five.city(), b"Hamburg");
    assert_eq!(five.temperature().tenths(), -125);
}

#[test]
fn name_may_be_empty_or_hold_any_byte() {
    let empty = DataLine::parse(b";0.0").unwrap();
    assert_eq!(empty.city(), b"");
    assert_eq!(empty.key(), fingerprint_of(b""));
    let odd = DataLine::parse(b"St. John's;-3.4").unwrap();
    assert_eq!(odd.city(), b"St. John's");
    let raw = DataLine::parse(&[0xff, 0xfe, b';', b'1', b'.', b'0']).unwrap();
    assert_eq!(raw.city(), &[0xff, 0xfe]);
}

#[test]
fn name_is_what_precedes_the_last_delimiter() {
    let line = DataLine::parse(b"A;B;1.0").unwrap();
    assert_eq!(line.city(), b"A;B");
    assert_eq!(line.key(), fingerprint_of(b"A;B"));
}

#[test]
fn rejects_lines_without_a_record() {
    let bad: [&[u8]; 14] = [
        b"", b"A", b"A;x", b";", b"1.0", b"A;", b"A;1", b"A;1.", b"A;1.00", b"A;123.4",
        b"A;-123.4", b"A 1.0", b"A;1.0;", b"A;1;0",
    ];
    for line in bad {
        assert!(matches!(DataLine::parse(line), Err(LineError::Malformed)));
    }
}

#[test]
fn line_try_from_is_parse() {
    let bytes: &[u8] = b"Lima;22.3";
    let line = DataLine::try_from(bytes).unwrap();
    assert_eq!(line.city(), b"Lima");
    assert_eq!(line.temperature().tenths(), 223);
    let bad: &[u8] = b"Lima;22,3";
    assert!(matches!(DataLine::try_from(bad), Err(LineError::Malformed)));
}
