use city_stats::temp_value::{ParseError, TempValue};

fn parsed(text: &[u8]) -> i128 {
    TempValue::parse(text).unwrap().tenths()
}

fn shown(tenths: i128) -> Vec<u8> {
    TempValue::from_tenths(tenths).to_display_string()
}

#[test]
fn parses_small_negative_value() {
    assert_eq!(parsed(b"-0.1"), -1);
}

#[test]
fn parses_one_digit_value() {
    assert_eq!(parsed(b"9.9"), 99);
}

#[test]
fn parses_each_shape() {
    assert_eq!(parsed(b"0.0"), 0);
    assert_eq!(parsed(b"1.0"), 10);
    assert_eq!(parsed(b"12.3"), 123);
    assert_eq!(parsed(b"-2.5"), -25);
    assert_eq!(parsed(b"-12.3"), -123);
    assert_eq!(parsed(b"99.9"), 999);
    assert_eq!(parsed(b"-99.9"), -999);
}

#[test]
fn parses_forms_that_are_not_canonical() {
    assert_eq!(parsed(b"-0.0"), 0);
    assert_eq!(parsed(b"05.3"), 53);
    assert_eq!(parsed(b"-00.7"), -7);
}

#[test]
fn rejects_other_shapes() {
    let bad: [&[u8]; 16] = [
        b"", b"-", b".", b"1", b"1.", b".5", b"1.23", b"123.4", b"1,0", b"a.b", b"x", b"--1.0",
        b"+1.0", b"1.0 ", b" 1.0", b"-123.4",
    ];
    for text in bad {
        assert_eq!(TempValue::parse(text), Err(ParseError::Malformed));
    }
}

#[test]
fn rejects_bytes_next_to_the_digits() {
    assert_eq!(TempValue::parse(b"/.0"), Err(ParseError::Malformed));
    assert_eq!(TempValue::parse(b":.0"), Err(ParseError::Malformed));
    assert_eq!(TempValue::parse(b"1./"), Err(ParseError::Malformed));
    assert_eq!(TempValue::parse(b"1.:"), Err(ParseError::Malformed));
    assert_eq!(TempValue::parse(b"1;0"), Err(ParseError::Malformed));
}

#[test]
fn value_try_from_is_parse() {
    let bytes: &[u8] = b"-7.5";
    assert_eq!(TempValue::try_from(bytes), Ok(TempValue::from_tenths(-75)));
    let bad: &[u8] = b"7.55";
    assert_eq!(TempValue::try_from(bad), Err(ParseError::Malformed));
}

#[test]
fn displays_with_one_fractional_digit() {
    assert_eq!(shown(0), b"0.0".to_vec());
    assert_eq!(shown(10), b"1.0".to_vec());
    assert_eq!(shown(-1), b"-0.1".to_vec());
    assert_eq!(shown(7), b"0.7".to_vec());
    assert_eq!(shown(-25), b"-2.5".to_vec());
    assert_eq!(shown(999), b"99.9".to_vec());
    assert_eq!(shown(-999), b"-99.9".to_vec());
}

#[test]
fn displays_sums_beyond_two_digits() {
    assert_eq!(shown(1000), b"100.0".to_vec());
    assert_eq!(shown(-123456), b"-12345.6".to_vec());
    assert_eq!(shown(i128::MAX), b"17014118346046923173168730371588410572.7".to_vec());
    assert_eq!(shown(i128::MIN), b"-17014118346046923173168730371588410572.8".to_vec());
}

#[test]
fn write_to_appends() {
    let mut out = b"x=".to_vec();
    TempValue::from_tenths(-305).write_to(&mut out);
    assert_eq!(out, b"x=-30.5".to_vec());
}

#[test]
fn display_then_parse_gives_every_reading_back() {
    for tenths in -999..=999 {
        let text = shown(tenths);
        assert_eq!(parsed(&text), tenths);
    }
}

#[test]
fn parse_then_display_gives_every_canonical_string_back() {
    let mut seen = 0;
    for sign in [false, true] {
        for whole in 0..100u32 {
            for tenth in 0..10u32 {
                if sign && whole == 0 && tenth == 0 {
                    continue;
                }
                let text = format!("{}{}.{}", if sign { "-" } else { "" }, whole, tenth);
                let value = TempValue::parse(text.as_bytes()).unwrap();
                assert_eq!(value.to_display_string(), text.as_bytes().to_vec());
                seen += 1;
            }
        }
    }
    assert_eq!(seen, 1999);
}

#[test]
fn adds_exactly() {
    let sum = TempValue::from_tenths(999) + TempValue::from_tenths(-1000);
    assert_eq!(sum.tenths(), -1);
    assert_eq!(sum, TempValue::from_tenths(-1));
}

#[test]
fn min_max_and_order() {
    let low = TempValue::from_tenths(-25);
    let high = TempValue::from_tenths(30);
    assert_eq!(low.min(high), low);
    assert_eq!(high.min(low), low);
    assert_eq!(low.max(high), high);
    assert_eq!(high.max(low), high);
    assert!(low < high);
    assert_eq!(TempValue::default().tenths(), 0);
}

#[test]
fn is_a_reading_only_within_the_grammar() {
    assert_eq!(TempValue::parse(b"99.9").unwrap().tenths(), 999);
    assert_eq!(TempValue::parse(b"-99.9").unwrap().tenths(), -999);
}
