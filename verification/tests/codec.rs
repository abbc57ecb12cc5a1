use ip2location::location::{City, Country, Location, Province, CITY_SENTINEL, PROVINCE_SENTINEL};

#[test]
fn codec_round_trip_plain_triple() {
    let loc = Location::new(7, 13, 4242);
    assert_eq!(loc.country().index(), 7);
    assert_eq!(loc.province().map(|p| p.index()), Some(13));
    assert_eq!(loc.city().map(|c| c.index()), Some(4242));
}

#[test]
fn codec_round_trip_extreme_indices() {
    let loc = Location::new(255, 0xFFFE, 0xFFFF_FFFE);
    assert_eq!(loc.country().index(), 255);
    assert_eq!(loc.province().map(|p| p.index()), Some(0xFFFE));
    assert_eq!(loc.city().map(|c| c.index()), Some(0xFFFF_FFFE));
}

#[test]
fn codec_round_trip_zero_triple() {
    let loc = Location::new(0, 0, 0);
    assert_eq!(loc.country().index(), 0);
    assert_eq!(loc.province().map(|p| p.index()), Some(0));
    assert_eq!(loc.city().map(|c| c.index()), Some(0));
}

#[test]
fn province_absent_iff_sentinel() {
    let with_province = Location::new(1, 5, 9);
    assert!(with_province.province().is_some());
    let without_province = Location::new(1, PROVINCE_SENTINEL, 9);
    assert!(without_province.province().is_none());
    // the sentinel affects only the province component
    assert!(without_province.city().is_some());
    assert_eq!(without_province.country().index(), 1);
}

#[test]
fn city_absent_iff_sentinel() {
    let with_city = Location::new(1, 5, 9);
    assert!(with_city.city().is_some());
    let without_city = Location::new(1, 5, CITY_SENTINEL);
    assert!(without_city.city().is_none());
    assert!(without_city.province().is_some());
    assert_eq!(without_city.country().index(), 1);
}

#[test]
fn both_components_absent() {
    let loc = Location::new(42, PROVINCE_SENTINEL, CITY_SENTINEL);
    assert!(loc.province().is_none());
    assert!(loc.city().is_none());
    assert_eq!(loc.country().index(), 42);
}

#[test]
fn location_from_id_keeps_packed_fields() {
    // country 2 << 56 | province 3 << 32 | city 4
    let id: u64 = (2u64 << 56) | (3u64 << 32) | 4u64;
    let loc = Location::from_id(id);
    assert_eq!(loc.country().index(), 2);
    assert_eq!(loc.province().map(|p| p.index()), Some(3));
    assert_eq!(loc.city().map(|c| c.index()), Some(4));
}

#[test]
fn country_index_round_trip() {
    let c = Country::from_index(113);
    assert_eq!(c.index(), 113);
}

#[test]
fn component_indices_are_plain_values() {
    let loc = Location::new(9, 17, 33);
    let p: Province = loc.province().unwrap();
    let c: City = loc.city().unwrap();
    assert_eq!(p.index(), 17);
    assert_eq!(c.index(), 33);
}
