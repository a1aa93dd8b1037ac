use city_stats::chunk::process_chunk;
use city_stats::cities_map::CitiesMap;
use city_stats::city_data::CityData;
use city_stats::fnv::fingerprint_of;
use city_stats::record::DataLine;
use city_stats::report::{format_results, name_no_later, report, sort_by_city};
use city_stats::temp_value::TempValue;

fn numbers(table: &CitiesMap, name: &[u8]) -> Option<(i128, i128, i128, u64)> {
    table
        .get(fingerprint_of(name))
        .map(|c| (c.min().tenths(), c.max().tenths(), c.sum().tenths(), c.count()))
}

#[test]
fn new_table_is_empty() {
    let table = CitiesMap::new();
    assert_eq!(table.len(), 0);
    assert!(table.iter().is_empty());
    assert!(table.get(fingerprint_of(b"A")).is_none());
}

#[test]
fn add_enters_a_city_and_then_observes() {
    let mut table = CitiesMap::new();
    table.add(DataLine::parse(b"A;1.0").unwrap());
    assert_eq!(numbers(&table, b"A"), Some((10, 10, 10, 1)));
    table.add(DataLine::parse(b"B;-2.5").unwrap());
    table.add(DataLine::parse(b"A;3.0").unwrap());
    assert_eq!(table.len(), 2);
    assert_eq!(numbers(&table, b"A"), Some((10, 30, 40, 2)));
    assert_eq!(numbers(&table, b"B"), Some((-25, -25, -25, 1)));
    assert_eq!(table.get(fingerprint_of(b"A")).unwrap().city(), b"A");
}

#[test]
fn first_reading_of_a_city_is_not_mixed_with_zero() {
    let mut table = CitiesMap::new();
    table.add(DataLine::parse(b"Cold;-5.0").unwrap());
    table.add(DataLine::parse(b"Warm;5.0").unwrap());
    assert_eq!(numbers(&table, b"Cold"), Some((-50, -50, -50, 1)));
    assert_eq!(numbers(&table, b"Warm"), Some((50, 50, 50, 1)));
}

#[test]
fn iter_lists_every_city_once() {
    let table = process_chunk(b"A;1.0\nB;2.0\nC;3.0\nA;4.0\n");
    let mut names: Vec<Vec<u8>> = table.iter().iter().map(|c| c.city().to_vec()).collect();
    names.sort();
    assert_eq!(names, vec![b"A".to_vec(), b"B".to_vec(), b"C".to_vec()]);
}

#[test]
fn merge_takes_cities_of_both_tables() {
    let mut left = process_chunk(b"A;1.0\nB;-2.5\n");
    let right = process_chunk(b"A;3.0\nC;7.0\n");
    assert!(left.can_merge(&right));
    left.merge(&right);
    assert_eq!(left.len(), 3);
    assert_eq!(numbers(&left, b"A"), Some((10, 30, 40, 2)));
    assert_eq!(numbers(&left, b"B"), Some((-25, -25, -25, 1)));
    assert_eq!(numbers(&left, b"C"), Some((70, 70, 70, 1)));
}

#[test]
fn merge_into_an_empty_table_takes_entries_as_they_are() {
    let mut left = CitiesMap::new();
    let right = process_chunk(b"Cold;-5.0\nWarm;5.0\n");
    left.merge(&right);
    assert_eq!(numbers(&left, b"Cold"), Some((-50, -50, -50, 1)));
    assert_eq!(numbers(&left, b"Warm"), Some((50, 50, 50, 1)));
    assert_eq!(left.get(fingerprint_of(b"Cold")).unwrap().city(), b"Cold");
}

#[test]
fn merge_of_tables_is_commutative_and_associative() {
    let a = b"A;1.0\nB;2.0\n";
    let b = b"B;-3.0\nC;4.0\n";
    let c = b"A;9.9\nC;-9.9\nD;0.0\n";
    let mut ab_c = process_chunk(a);
    ab_c.merge(&process_chunk(b));
    ab_c.merge(&process_chunk(c));
    let mut bc = process_chunk(b);
    bc.merge(&process_chunk(c));
    let mut a_bc = process_chunk(a);
    a_bc.merge(&bc);
    let mut c_b_a = process_chunk(c);
    c_b_a.merge(&process_chunk(b));
    c_b_a.merge(&process_chunk(a));
    assert_eq!(report(&ab_c), report(&a_bc));
    assert_eq!(report(&ab_c), report(&c_b_a));
    assert_eq!(
        report(&ab_c),
        b"{A=1.0/5.5/9.9, B=-3.0/-0.5/2.0, C=-9.9/-2.9/4.0, D=0.0/0.0/0.0}".to_vec()
    );
}

#[test]
fn three_lines_of_two_cities() {
    let table = process_chunk(b"A;1.0\nB;-2.5\nA;3.0\n");
    assert_eq!(report(&table), b"{A=1.0/2.0/3.0, B=-2.5/-2.5/-2.5}".to_vec());
}

#[test]
fn malformed_line_is_skipped() {
    let table = process_chunk(b"A;1.0\nA;x\nB;-2.5\nA;3.0\n");
    assert_eq!(report(&table), b"{A=1.0/2.0/3.0, B=-2.5/-2.5/-2.5}".to_vec());
    assert_eq!(numbers(&table, b"A"), Some((10, 30, 40, 2)));
}

#[test]
fn no_valid_line_gives_empty_result() {
    assert_eq!(report(&process_chunk(b"")), b"{}".to_vec());
    assert_eq!(report(&process_chunk(b"\n\n\n")), b"{}".to_vec());
    assert_eq!(report(&process_chunk(b"A;x\nnothing\n;\n")), b"{}".to_vec());
    assert_eq!(process_chunk(b"A;x\n").len(), 0);
}

#[test]
fn last_line_needs_no_terminator() {
    let with = process_chunk(b"A;1.0\nB;2.0\n");
    let without = process_chunk(b"A;1.0\nB;2.0");
    assert_eq!(report(&with), report(&without));
    assert_eq!(report(&without), b"{A=1.0/1.0/1.0, B=2.0/2.0/2.0}".to_vec());
}

#[test]
fn empty_lines_are_passed_over() {
    let table = process_chunk(b"\nA;1.0\n\n\nA;2.0\n\n");
    assert_eq!(numbers(&table, b"A"), Some((10, 20, 30, 2)));
    assert_eq!(table.len(), 1);
}

#[test]
fn names_borrow_from_the_chunk() {
    let buffer = b"Reykjavik;-1.5\n".to_vec();
    let table = process_chunk(&buffer);
    let entry = table.get(fingerprint_of(b"Reykjavik")).unwrap();
    assert_eq!(entry.city(), b"Reykjavik");
}

#[test]
fn names_are_ordered_byte_by_byte() {
    assert!(name_no_later(b"", b""));
    assert!(name_no_later(b"", b"A"));
    assert!(!name_no_later(b"A", b""));
    assert!(name_no_later(b"A", b"A"));
    assert!(name_no_later(b"A", b"B"));
    assert!(!name_no_later(b"B", b"A"));
    assert!(name_no_later(b"Ab", b"Abc"));
    assert!(!name_no_later(b"Abc", b"Ab"));
    assert!(name_no_later(b"Z", b"a"));
    assert!(name_no_later(b"a", &[0xc3, 0x84]));
    assert!(!name_no_later(&[0xc3, 0x84], b"z"));
}

#[test]
fn sort_puts_cities_in_order_of_their_names() {
    let names: [&[u8]; 6] = [b"Oslo", b"Bern", b"", b"Berlin", b"oslo", b"Ber"];
    let mut entries = Vec::new();
    for name in names {
        let mut entry = CityData::new(name);
        entry.add(TempValue::from_tenths(1));
        entries.push(entry);
    }
    let sorted = sort_by_city(entries);
    let got: Vec<&[u8]> = sorted.iter().map(|c| c.city()).collect();
    let expected: Vec<&[u8]> = vec![b"", b"Ber", b"Berlin", b"Bern", b"Oslo", b"oslo"];
    assert_eq!(got, expected);
}

#[test]
fn sort_keeps_every_entry() {
    let mut entries = Vec::new();
    for (name, tenths) in [(b"b", 1), (b"a", 2), (b"b", 3), (b"a", 4)] {
        let mut entry = CityData::new(name);
        entry.add(TempValue::from_tenths(tenths));
        entries.push(entry);
    }
    let sorted = sort_by_city(entries);
    let mut got: Vec<(Vec<u8>, i128)> =
        sorted.iter().map(|c| (c.city().to_vec(), c.sum().tenths())).collect();
    assert_eq!(got[0].0, b"a".to_vec());
    assert_eq!(got[1].0, b"a".to_vec());
    assert_eq!(got[2].0, b"b".to_vec());
    assert_eq!(got[3].0, b"b".to_vec());
    got.sort();
    assert_eq!(
        got,
        vec![(b"a".to_vec(), 2), (b"a".to_vec(), 4), (b"b".to_vec(), 1), (b"b".to_vec(), 3)]
    );
}

#[test]
fn format_results_parts_entries_and_adds_braces() {
    assert_eq!(format_results(&[]), b"{}".to_vec());
    let mut one = CityData::new(b"A");
    one.add(TempValue::from_tenths(-1));
    assert_eq!(format_results(&[one]), b"{A=-0.1/-0.1/-0.1}".to_vec());
    let mut two = CityData::new(b"B");
    two.add(TempValue::from_tenths(5));
    two.add(TempValue::from_tenths(6));
    assert_eq!(
        format_results(&[two, one]),
        b"{B=0.5/0.6/0.6, A=-0.1/-0.1/-0.1}".to_vec()
    );
}

#[test]
fn report_sorts_by_name() {
    let table = process_chunk(b"Zagreb;1.0\nAccra;30.1\nLima;-0.4\nAccra;29.9\n");
    assert_eq!(
        report(&table),
        b"{Accra=29.9/30.0/30.1, Lima=-0.4/-0.4/-0.4, Zagreb=1.0/1.0/1.0}".to_vec()
    );
}
