use city_stats::city_data::CityData;
use city_stats::temp_value::TempValue;

fn reading(tenths: i128) -> TempValue {
    TempValue::from_tenths(tenths)
}

fn city<'a>(name: &'a [u8], readings: &[i128]) -> CityData<'a> {
    let mut data = CityData::new(name);
    for tenths in readings {
        data.add(reading(*tenths));
    }
    data
}

fn numbers(data: &CityData) -> (i128, i128, i128, u64) {
    (data.min().tenths(), data.max().tenths(), data.sum().tenths(), data.count())
}

#[test]
fn new_city_has_no_reading() {
    let data = CityData::new(b"Oslo");
    assert_eq!(data.city(), b"Oslo");
    assert_eq!(numbers(&data), (0, 0, 0, 0));
}

#[test]
fn first_reading_is_minimum_maximum_and_sum() {
    assert_eq!(numbers(&city(b"A", &[25])), (25, 25, 25, 1));
    assert_eq!(numbers(&city(b"A", &[-25])), (-25, -25, -25, 1));
}

#[test]
fn later_readings_update_the_numbers() {
    let data = city(b"A", &[10, 30, -5, 30]);
    assert_eq!(numbers(&data), (-5, 30, 65, 4));
    assert_eq!(data.city(), b"A");
}

#[test]
fn mean_is_exact_where_it_is_a_tenth() {
    assert_eq!(city(b"A", &[10, 30]).mean().tenths(), 20);
    assert_eq!(city(b"B", &[-25]).mean().tenths(), -25);
    assert_eq!(city(b"C", &[999, 999, 999]).mean().tenths(), 999);
    assert_eq!(city(b"D", &[-999, 999]).mean().tenths(), 0);
}

#[test]
fn mean_is_rounded_to_the_nearest_tenth() {
    assert_eq!(city(b"A", &[1, 1, 2]).mean().tenths(), 1);
    assert_eq!(city(b"A", &[1, 2, 2]).mean().tenths(), 2);
    assert_eq!(city(b"A", &[-1, -1, -2]).mean().tenths(), -1);
    assert_eq!(city(b"A", &[-1, -2, -2]).mean().tenths(), -2);
}

#[test]
fn mean_halfway_goes_to_the_larger_tenth() {
    assert_eq!(city(b"A", &[1, 2]).mean().tenths(), 2);
    assert_eq!(city(b"A", &[0, 1]).mean().tenths(), 1);
    assert_eq!(city(b"A", &[-1, -2]).mean().tenths(), -1);
    assert_eq!(city(b"A", &[-1, 0]).mean().tenths(), 0);
    assert_eq!(city(b"A", &[-3, -2]).mean().tenths(), -2);
}

#[test]
fn merge_puts_the_readings_together() {
    let mut left = city(b"A", &[10, 30]);
    let right = city(b"A", &[-5, 20, 15]);
    left.merge(&right);
    assert_eq!(numbers(&left), (-5, 30, 70, 5));
    assert_eq!(numbers(&left), numbers(&city(b"A", &[10, 30, -5, 20, 15])));
}

#[test]
fn merge_is_commutative() {
    let a = city(b"A", &[10, 30]);
    let b = city(b"A", &[-5, 20, 15]);
    let mut ab = a;
    ab.merge(&b);
    let mut ba = b;
    ba.merge(&a);
    assert_eq!(numbers(&ab), numbers(&ba));
    assert_eq!(ab.city(), ba.city());
}

#[test]
fn merge_is_associative() {
    let a = city(b"A", &[10]);
    let b = city(b"A", &[-5, 20]);
    let c = city(b"A", &[999, -999, 3]);
    let mut left = a;
    left.merge(&b);
    left.merge(&c);
    let mut bc = b;
    bc.merge(&c);
    let mut right = a;
    right.merge(&bc);
    assert_eq!(numbers(&left), numbers(&right));
    assert_eq!(numbers(&left), (-999, 999, 28, 6));
}

#[test]
fn merge_with_a_city_without_readings_changes_nothing() {
    let a = city(b"A", &[10, -30]);
    let mut right = a;
    right.merge(&CityData::new(b"other"));
    assert_eq!(numbers(&right), numbers(&a));
    assert_eq!(right.city(), b"A");
    let mut left = CityData::new(b"other");
    left.merge(&a);
    assert_eq!(numbers(&left), numbers(&a));
    assert_eq!(left.city(), b"A");
}

#[test]
fn merge_keeps_the_name_of_the_left_side() {
    let mut left = city(b"left", &[1]);
    left.merge(&city(b"right", &[2]));
    assert_eq!(left.city(), b"left");
}

#[test]
fn displays_name_and_numbers() {
    assert_eq!(city(b"A", &[10, 30]).to_display_string(), b"A=1.0/2.0/3.0".to_vec());
    assert_eq!(city(b"B", &[-25]).to_display_string(), b"B=-2.5/-2.5/-2.5".to_vec());
    assert_eq!(
        city(b"Ulan Bator", &[-999, 1, 2]).to_display_string(),
        b"Ulan Bator=-99.9/-33.2/0.2".to_vec()
    );
}

#[test]
fn write_to_appends_the_entry() {
    let mut out = b"{".to_vec();
    city(b"A", &[5]).write_to(&mut out);
    assert_eq!(out, b"{A=0.5/0.5/0.5".to_vec());
}
