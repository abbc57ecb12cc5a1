use ip2location::compiler::{compile, eat, parse, parse_uint, CountryTable, IpVersion};
use ip2location::db::{query, IpAddr};

fn table() -> CountryTable {
    // a small fixture table: position is the country's index
    CountryTable::new(vec![(b'D', b'E'), (b'U', b'S'), (b'J', b'P')]).unwrap()
}

fn line(s: &str) -> Vec<u8> {
    s.as_bytes().to_vec()
}

#[test]
fn eat_extracts_six_quoted_fields() {
    let row = eat(b"\"1\",\"2\",\"US\",\"United States\",\"California\",\"Mountain View\"")
        .unwrap();
    assert_eq!(row.start, b"1");
    assert_eq!(row.end, b"2");
    assert_eq!(row.cc, b"US");
    assert_eq!(row.country, b"United States");
    assert_eq!(row.province, b"California");
    assert_eq!(row.city, b"Mountain View");
}

#[test]
fn eat_too_few_fields() {
    assert!(eat(b"\"1\",\"2\",\"US\"").is_none());
    assert!(eat(b"").is_none());
    assert!(eat(b"no quotes at all").is_none());
}

#[test]
fn eat_unterminated_field() {
    assert!(eat(b"\"1\",\"2\",\"US\",\"United States\",\"California\",\"Mountain").is_none());
}

#[test]
fn eat_ignores_fields_past_the_sixth() {
    let row = eat(b"\"1\",\"2\",\"US\",\"a\",\"b\",\"c\",\"extra\"").unwrap();
    assert_eq!(row.city, b"c");
}

#[test]
fn eat_separators_are_irrelevant() {
    // only the quoted substrings count, positionally
    let row = eat(b"\"1\" \"2\"junk\"US\"\"a\"\"b\"\"c\"").unwrap();
    assert_eq!(row.start, b"1");
    assert_eq!(row.cc, b"US");
    assert_eq!(row.city, b"c");
}

#[test]
fn parse_uint_values() {
    assert_eq!(parse_uint(b"0"), Some(0));
    assert_eq!(parse_uint(b"134744064"), Some(134744064));
    assert_eq!(parse_uint(b"4294967295"), Some(4294967295));
    assert_eq!(
        parse_uint(b"340282366920938463463374607431768211455"),
        Some(u128::MAX)
    );
    assert_eq!(parse_uint(b"007"), Some(7));
}

#[test]
fn parse_uint_rejects() {
    assert_eq!(parse_uint(b""), None);
    assert_eq!(parse_uint(b"12a"), None);
    assert_eq!(parse_uint(b"-1"), None);
    assert_eq!(parse_uint(b"+1"), None);
    assert_eq!(parse_uint(b" 1"), None);
    // one past the largest 128-bit value
    assert_eq!(parse_uint(b"340282366920938463463374607431768211456"), None);
}

#[test]
fn parse_accepts_a_full_row() {
    let t = table();
    let rec = parse(
        b"\"10\",\"20\",\"US\",\"United States\",\"California\",\"Mountain View\"",
        &t,
        IpVersion::V4,
    )
    .unwrap();
    assert_eq!(rec.start, 10);
    assert_eq!(rec.end, 20);
    assert_eq!(rec.country.index(), 1);
    assert_eq!(rec.province.as_deref(), Some(b"California".as_slice()));
    assert_eq!(rec.city.as_deref(), Some(b"Mountain View".as_slice()));
}

#[test]
fn parse_dash_means_absent() {
    let t = table();
    let rec = parse(b"\"1\",\"2\",\"DE\",\"Germany\",\"-\",\"-\"", &t, IpVersion::V4).unwrap();
    assert_eq!(rec.country.index(), 0);
    assert!(rec.province.is_none());
    assert!(rec.city.is_none());
}

#[test]
fn parse_drops_unknown_country_code() {
    let t = table();
    assert!(parse(b"\"1\",\"2\",\"ZZ\",\"Nowhere\",\"-\",\"-\"", &t, IpVersion::V4).is_none());
}

#[test]
fn parse_drops_bad_bounds() {
    let t = table();
    // not a numeral
    assert!(parse(b"\"x\",\"2\",\"US\",\"a\",\"-\",\"-\"", &t, IpVersion::V4).is_none());
    // too wide for the 4-byte family
    assert!(parse(b"\"4294967296\",\"4294967297\",\"US\",\"a\",\"-\",\"-\"", &t, IpVersion::V4)
        .is_none());
    // the same bounds are fine for the 16-byte family
    assert!(parse(b"\"4294967296\",\"4294967297\",\"US\",\"a\",\"-\",\"-\"", &t, IpVersion::V6)
        .is_some());
}

#[test]
fn compile_fixture_and_query_known_address() {
    let t = table();
    let v4_lines = vec![line(
        "\"134744064\",\"134744319\",\"US\",\"United States\",\"-\",\"Mountain View\"",
    )];
    let v6_lines: Vec<Vec<u8>> = Vec::new();
    let out = compile(&v4_lines, &v6_lines, &t).unwrap();
    // 8.8.8.8 == 134744072
    let found = query(&out.blob, &IpAddr::V4(134744072)).unwrap();
    assert_eq!(found.country().index(), 1); // the fixture's US index
    assert!(found.province().is_none());
    let city = found.city().unwrap();
    assert_eq!(city.name(&out.cities).unwrap().as_slice(), b"Mountain View");
}

#[test]
fn compile_drops_row_with_unknown_country() {
    let t = table();
    let v4_lines = vec![
        line("\"10\",\"20\",\"US\",\"United States\",\"-\",\"-\""),
        line("\"30\",\"40\",\"ZZ\",\"Nowhere\",\"-\",\"SomeCity\""),
        line("\"50\",\"60\",\"JP\",\"Japan\",\"-\",\"-\""),
    ];
    let v6_lines: Vec<Vec<u8>> = Vec::new();
    let out = compile(&v4_lines, &v6_lines, &t).unwrap();
    // two surviving records of 16 bytes each behind the 16-byte header
    assert_eq!(out.blob.len(), 16 + 2 * 16);
    // the dropped row's addresses resolve to nothing
    assert!(query(&out.blob, &IpAddr::V4(35)).is_none());
    assert!(query(&out.blob, &IpAddr::V4(15)).is_some());
    assert!(query(&out.blob, &IpAddr::V4(55)).is_some());
    // the dropped row contributed no city name either
    assert_eq!(out.cities.len(), 0);
}

#[test]
fn compile_builds_shared_dictionaries() {
    let t = table();
    let v4_lines = vec![
        line("\"10\",\"20\",\"US\",\"United States\",\"Oregon\",\"Salem\""),
        line("\"30\",\"40\",\"US\",\"United States\",\"California\",\"Mountain View\""),
    ];
    let v6_lines = vec![line("\"100\",\"200\",\"JP\",\"Japan\",\"Kyoto\",\"Kyoto\"")];
    let out = compile(&v4_lines, &v6_lines, &t).unwrap();
    // provinces and cities live in separate namespaces, sorted and shared
    // between both families
    assert_eq!(out.provinces.len(), 3);
    assert_eq!(out.provinces.index_to_name(0).unwrap().as_slice(), b"California");
    assert_eq!(out.provinces.index_to_name(1).unwrap().as_slice(), b"Kyoto");
    assert_eq!(out.provinces.index_to_name(2).unwrap().as_slice(), b"Oregon");
    assert_eq!(out.cities.len(), 3);
    assert_eq!(out.cities.index_to_name(0).unwrap().as_slice(), b"Kyoto");
    assert_eq!(out.cities.index_to_name(1).unwrap().as_slice(), b"Mountain View");
    assert_eq!(out.cities.index_to_name(2).unwrap().as_slice(), b"Salem");
    // a record's indices point into those dictionaries
    let found = query(&out.blob, &IpAddr::V4(12)).unwrap();
    let province = found.province().unwrap();
    assert_eq!(province.name(&out.provinces).unwrap().as_slice(), b"Oregon");
    let found6 = query(&out.blob, &IpAddr::V6(150)).unwrap();
    assert_eq!(found6.country().index(), 2);
    assert_eq!(found6.city().unwrap().name(&out.cities).unwrap().as_slice(), b"Kyoto");
}

#[test]
fn compile_drops_malformed_lines_not_the_batch() {
    let t = table();
    let v4_lines = vec![
        line("garbage without quotes"),
        line("\"10\",\"20\",\"DE\",\"Germany\",\"-\",\"Berlin\""),
        line("\"x\",\"y\",\"DE\",\"Germany\",\"-\",\"Hamburg\""),
    ];
    let v6_lines: Vec<Vec<u8>> = Vec::new();
    let out = compile(&v4_lines, &v6_lines, &t).unwrap();
    assert_eq!(out.blob.len(), 16 + 16);
    // the dropped rows contributed no names: names count only after a full parse
    assert_eq!(out.cities.len(), 1);
    assert_eq!(out.cities.index_to_name(0).unwrap().as_slice(), b"Berlin");
}

#[test]
fn country_table_rejects_oversized() {
    let mut codes: Vec<(u8, u8)> = Vec::new();
    for i in 0..257u32 {
        codes.push(((i % 26) as u8 + b'A', (i / 26) as u8 + b'A'));
    }
    assert!(CountryTable::new(codes).is_none());
    assert!(CountryTable::new(Vec::new()).is_some());
}

#[test]
fn country_table_lookup_is_positional() {
    let t = table();
    assert_eq!(t.len(), 3);
    assert_eq!(t.lookup(b"DE"), Some(0));
    assert_eq!(t.lookup(b"US"), Some(1));
    assert_eq!(t.lookup(b"JP"), Some(2));
    assert_eq!(t.lookup(b"ZZ"), None);
    assert_eq!(t.lookup(b"U"), None);
    assert_eq!(t.lookup(b"USA"), None);
}
