use ip2location::compiler::serialize;
use ip2location::db::{query, IpAddr, IpDb, Record, V4Records, V6Records};

fn v4_record(start: u32, end: u32, location_id: u64) -> Record<u32> {
    Record { start, end, location_id }
}

fn v6_record(start: u128, end: u128, location_id: u64) -> Record<u128> {
    Record { start, end, location_id }
}

fn blob_of(v4: Vec<Record<u32>>, v6: Vec<Record<u128>>) -> Vec<u8> {
    serialize(&v4, &v6).unwrap()
}

#[test]
fn record_from_bytes_v4_reads_little_endian() {
    let mut bytes: Vec<u8> = Vec::new();
    bytes.extend_from_slice(&[0x01, 0x00, 0x00, 0x00]); // start = 1
    bytes.extend_from_slice(&[0xFF, 0x00, 0x00, 0x00]); // end = 255
    bytes.extend_from_slice(&[0x02, 0x00, 0x00, 0x00, 0x00, 0x00, 0x00, 0x01]); // id
    let rec = Record::<u32>::from_bytes(&bytes).unwrap();
    assert_eq!(rec.start, 1);
    assert_eq!(rec.end, 255);
    assert_eq!(rec.location_id, (1u64 << 56) | 2);
}

#[test]
fn record_from_bytes_v4_short_buffer() {
    assert!(Record::<u32>::from_bytes(&[0u8; 15]).is_none());
    assert!(Record::<u32>::from_bytes(&[]).is_none());
}

#[test]
fn record_from_bytes_v6_reads_little_endian() {
    let mut bytes: Vec<u8> = Vec::new();
    bytes.extend_from_slice(&7u128.to_le_bytes());
    bytes.extend_from_slice(&9u128.to_le_bytes());
    bytes.extend_from_slice(&11u64.to_le_bytes());
    let rec = Record::<u128>::from_bytes(&bytes).unwrap();
    assert_eq!(rec.start, 7);
    assert_eq!(rec.end, 9);
    assert_eq!(rec.location_id, 11);
}

#[test]
fn record_from_bytes_v6_short_buffer() {
    assert!(Record::<u128>::from_bytes(&[0u8; 39]).is_none());
}

#[test]
fn binary_search_three_records_and_gaps() {
    let blob = blob_of(
        vec![v4_record(10, 20, 1), v4_record(30, 40, 2), v4_record(100, 100, 3)],
        vec![],
    );
    let db = IpDb::new(&blob);
    let hit = |x: u32| db.query(&IpAddr::V4(x));
    assert!(hit(9).is_none()); // before all coverage
    assert!(hit(10).is_some()); // first start
    assert!(hit(15).is_some()); // inside first
    assert!(hit(20).is_some()); // first end, inclusive
    assert!(hit(21).is_none()); // gap
    assert!(hit(29).is_none()); // gap
    assert!(hit(30).is_some()); // second start
    assert!(hit(41).is_none()); // gap after second
    assert!(hit(100).is_some()); // single-address interval
    assert!(hit(101).is_none()); // past all coverage
}

#[test]
fn boundary_end_matches_end_plus_one_does_not() {
    let blob = blob_of(vec![v4_record(10, 20, 7), v4_record(22, 30, 8)], vec![]);
    let db = IpDb::new(&blob);
    // x == record.end matches that record
    let at_end = db.query(&IpAddr::V4(20));
    assert!(at_end.is_some());
    // x == record.end + 1 does not match it: here it falls in a gap
    assert!(db.query(&IpAddr::V4(21)).is_none());
    // with adjacent records, end + 1 matches the next record instead
    let blob2 = blob_of(vec![v4_record(10, 20, 7), v4_record(21, 30, 8)], vec![]);
    let db2 = IpDb::new(&blob2);
    let next = db2.query(&IpAddr::V4(21)).unwrap();
    // the match comes from the second record: its id decodes to city 8
    assert_eq!(next.city().map(|c| c.index()), Some(8));
}

#[test]
fn query_fixture_zone_finds_known_address() {
    // 8.8.8.8 == 134744072 lies inside [134744064, 134744319]
    let us_country_index: u8 = 229;
    // the packed id of (country, absent province, city 0)
    let location_id = (us_country_index as u64) << 56 | 0xFFFFu64 << 32 | 0u64;
    let blob = blob_of(vec![Record { start: 134744064, end: 134744319, location_id }], vec![]);
    let db = IpDb::new(&blob);
    let found = db.query(&IpAddr::V4(134744072)).unwrap();
    assert_eq!(found.country().index(), us_country_index);
    assert!(found.province().is_none());
    assert_eq!(found.city().map(|c| c.index()), Some(0));
}

#[test]
fn query_second_family_empty_zone_is_absent() {
    // a database with data only for the 4-byte family
    let blob = blob_of(vec![v4_record(1, 2, 3)], vec![]);
    let db = IpDb::new(&blob);
    assert!(db.query(&IpAddr::V6(1)).is_none());
    assert!(db.query(&IpAddr::V6(0)).is_none());
    assert!(db.query(&IpAddr::V6(u128::MAX)).is_none());
}

#[test]
fn query_v6_zone() {
    let blob = blob_of(
        vec![],
        vec![v6_record(1u128 << 100, (1u128 << 100) + 1000, 5), v6_record(1u128 << 120, u128::MAX, 6)],
    );
    let db = IpDb::new(&blob);
    assert!(db.query(&IpAddr::V6(1u128 << 100)).is_some());
    assert!(db.query(&IpAddr::V6((1u128 << 100) + 1000)).is_some());
    assert!(db.query(&IpAddr::V6((1u128 << 100) + 1001)).is_none());
    assert!(db.query(&IpAddr::V6(u128::MAX)).is_some());
    assert!(db.query(&IpAddr::V6(0)).is_none());
}

#[test]
fn empty_database_answers_nothing() {
    let blob = blob_of(vec![], vec![]);
    assert_eq!(blob.len(), 16);
    let db = IpDb::new(&blob);
    assert!(db.query(&IpAddr::V4(0)).is_none());
    assert!(db.query(&IpAddr::V6(0)).is_none());
}

#[test]
fn truncated_blob_fails_closed() {
    let db = IpDb::new(&[]);
    assert!(db.query(&IpAddr::V4(1)).is_none());
    let db = IpDb::new(&[0u8; 15]); // too short for a header
    assert!(db.query(&IpAddr::V4(1)).is_none());
}

#[test]
fn corrupt_header_fails_closed() {
    // a valid one-record blob, then its header corrupted
    let good = blob_of(vec![v4_record(10, 20, 1)], vec![]);
    let db = IpDb::new(&good);
    assert!(db.query(&IpAddr::V4(15)).is_some());

    // zone end beyond the buffer
    let mut past_end = good.clone();
    past_end[4..8].copy_from_slice(&1000u32.to_le_bytes());
    let db = IpDb::new(&past_end);
    assert!(db.query(&IpAddr::V4(15)).is_none());

    // zone end before zone start
    let mut inverted = good.clone();
    inverted[4..8].copy_from_slice(&8u32.to_le_bytes());
    let db = IpDb::new(&inverted);
    assert!(db.query(&IpAddr::V4(15)).is_none());

    // zone length not a whole number of records
    let mut ragged = good.clone();
    ragged.push(0);
    ragged[4..8].copy_from_slice(&33u32.to_le_bytes());
    let db = IpDb::new(&ragged);
    assert!(db.query(&IpAddr::V4(15)).is_none());

    // zone start inside the header
    let mut overlapping = good.clone();
    overlapping[0..4].copy_from_slice(&0u32.to_le_bytes());
    overlapping[4..8].copy_from_slice(&16u32.to_le_bytes());
    let db = IpDb::new(&overlapping);
    assert!(db.query(&IpAddr::V4(15)).is_none());

    // a corrupt first-family zone leaves the second family intact
    let mut v6_ok = blob_of(vec![v4_record(10, 20, 1)], vec![v6_record(5, 6, 2)]);
    v6_ok[4..8].copy_from_slice(&9999u32.to_le_bytes());
    let db = IpDb::new(&v6_ok);
    assert!(db.query(&IpAddr::V4(15)).is_none());
    assert!(db.query(&IpAddr::V6(5)).is_some());
}

#[test]
fn zone_accessors_bounds_checked() {
    let blob = blob_of(vec![v4_record(10, 20, 1), v4_record(30, 40, 2)], vec![]);
    let zone = V4Records::new(&blob, 16, 2);
    assert_eq!(zone.len(), 2);
    let first = zone.get(0).unwrap();
    assert_eq!((first.start, first.end, first.location_id), (10, 20, 1));
    let second = zone.get(1).unwrap();
    assert_eq!((second.start, second.end, second.location_id), (30, 40, 2));
    assert!(zone.get(2).is_none());
    assert!(zone.get(usize::MAX).is_none());
    // a zone described past the buffer is empty
    let bogus = V4Records::new(&blob, 16, 1000);
    assert_eq!(bogus.len(), 0);
    assert!(bogus.get(0).is_none());
}

#[test]
fn zone_binary_search_direct() {
    let blob = blob_of(
        vec![v4_record(0, 0, 1), v4_record(2, 3, 2), v4_record(5, 9, 3), v4_record(11, 11, 4)],
        vec![],
    );
    let zone = V4Records::new(&blob, 16, 4);
    assert_eq!(zone.binary_search(0).map(|r| r.location_id), Some(1));
    assert_eq!(zone.binary_search(1).map(|r| r.location_id), None);
    assert_eq!(zone.binary_search(2).map(|r| r.location_id), Some(2));
    assert_eq!(zone.binary_search(3).map(|r| r.location_id), Some(2));
    assert_eq!(zone.binary_search(4).map(|r| r.location_id), None);
    assert_eq!(zone.binary_search(7).map(|r| r.location_id), Some(3));
    assert_eq!(zone.binary_search(11).map(|r| r.location_id), Some(4));
    assert_eq!(zone.binary_search(12).map(|r| r.location_id), None);
    assert_eq!(zone.binary_search(u32::MAX).map(|r| r.location_id), None);
}

#[test]
fn v6_zone_accessors() {
    let blob = blob_of(vec![], vec![v6_record(100, 200, 9)]);
    let zone = V6Records::new(&blob, 16, 1);
    assert_eq!(zone.len(), 1);
    let rec = zone.get(0).unwrap();
    assert_eq!((rec.start, rec.end, rec.location_id), (100, 200, 9));
    assert!(zone.get(1).is_none());
    assert_eq!(zone.binary_search(150).map(|r| r.location_id), Some(9));
    assert_eq!(zone.binary_search(201).map(|r| r.location_id), None);
}

#[test]
fn blob_wire_layout_is_exact() {
    let blob = blob_of(vec![v4_record(10, 20, 99)], vec![v6_record(7, 8, 100)]);
    // header: four 32-bit little-endian offsets bounding the two zones
    assert_eq!(blob.len(), 16 + 16 + 40);
    assert_eq!(&blob[0..4], &16u32.to_le_bytes());
    assert_eq!(&blob[4..8], &32u32.to_le_bytes());
    assert_eq!(&blob[8..12], &32u32.to_le_bytes());
    assert_eq!(&blob[12..16], &72u32.to_le_bytes());
    // first-family record: 4 + 4 + 8 bytes, little-endian, no padding
    assert_eq!(&blob[16..20], &10u32.to_le_bytes());
    assert_eq!(&blob[20..24], &20u32.to_le_bytes());
    assert_eq!(&blob[24..32], &99u64.to_le_bytes());
    // second-family record: 16 + 16 + 8 bytes
    assert_eq!(&blob[32..48], &7u128.to_le_bytes());
    assert_eq!(&blob[48..64], &8u128.to_le_bytes());
    assert_eq!(&blob[64..72], &100u64.to_le_bytes());
}

#[test]
fn top_level_query_builds_engine_each_call() {
    let blob = blob_of(vec![v4_record(10, 20, (3u64 << 56) | (0xFFFFu64 << 32) | 0xFFFF_FFFFu64)], vec![]);
    let found = query(&blob, &IpAddr::V4(12)).unwrap();
    assert_eq!(found.country().index(), 3);
    assert!(found.province().is_none());
    assert!(found.city().is_none());
    assert!(query(&blob, &IpAddr::V4(21)).is_none());
}
