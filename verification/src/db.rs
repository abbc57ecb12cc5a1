//! The range database and the lookup engine.
//!
//! A compiled database is one byte buffer: a 16-byte header of four 32-bit
//! little-endian offsets (first-family zone start and end, second-family zone
//! start and end), followed by the two zones. A zone is a run of fixed-width
//! records `(range start, range end, location id)`, 16 bytes each for the
//! 4-byte address family and 40 bytes each for the 16-byte address family,
//! sorted ascending by range start and mutually non-overlapping.
//!
//! A point query resolves by range binary search: the candidate window only
//! ever discards a half proven too low (every record there ends strictly
//! before the target), so a containing record is never skipped. A corrupt or
//! truncated header fails closed: the affected zone is treated as empty.

use vstd::prelude::*;
use vstd::bytes::{
    spec_u32_from_le_bytes,
    spec_u64_from_le_bytes,
    spec_u128_from_le_bytes,
    u32_from_le_bytes,
    u64_from_le_bytes,
    u128_from_le_bytes,
};
use vstd::slice::slice_subrange;

use crate::location::Location;

verus! {

/// The byte width of one record of the 4-byte address family.
pub const V4_RECORD_SIZE: usize = 16;

/// The byte width of one record of the 16-byte address family.
pub const V6_RECORD_SIZE: usize = 40;

/// The byte width of the database header.
pub const HEADER_SIZE: usize = 16;

/// One interval record: the addresses from `start` to `end`, both inclusive,
/// share the location identified by `location_id`.
#[derive(Debug, PartialEq, Eq, Clone, Copy)]
pub struct Record<T> {
    pub start: T,
    pub end: T,
    pub location_id: u64,
}

/// An address of either family, as the plain number the engine compares.
#[derive(Debug, PartialEq, Eq, Clone, Copy)]
pub enum IpAddr {
    V4(u32),
    V6(u128),
}

/// Whether the record's interval contains `x` (both bounds inclusive).
pub open spec fn v4_contains(r: Record<u32>, x: u32) -> bool {
    r.start <= x <= r.end
}

/// Whether the record's interval contains `x` (both bounds inclusive).
pub open spec fn v6_contains(r: Record<u128>, x: u128) -> bool {
    r.start <= x <= r.end
}

/// A well-formed zone: each interval is non-empty in the inclusive sense, and
/// the records are sorted ascending by start with no overlap — every record
/// ends strictly before the next one starts.
pub open spec fn v4_zone_wf(s: Seq<Record<u32>>) -> bool {
    &&& forall|i: int| 0 <= i < s.len() ==> (#[trigger] s[i]).start <= s[i].end
    &&& forall|i: int, j: int| #![trigger s[i], s[j]] 0 <= i < j < s.len() ==> s[i].end < s[j].start
}

/// A well-formed zone of the 16-byte address family; see [`v4_zone_wf`].
pub open spec fn v6_zone_wf(s: Seq<Record<u128>>) -> bool {
    &&& forall|i: int| 0 <= i < s.len() ==> (#[trigger] s[i]).start <= s[i].end
    &&& forall|i: int, j: int| #![trigger s[i], s[j]] 0 <= i < j < s.len() ==> s[i].end < s[j].start
}

/// In a well-formed zone at most one record contains any given address.
pub proof fn lemma_v4_match_unique(s: Seq<Record<u32>>, x: u32, i: int, j: int)
    requires
        v4_zone_wf(s),
        0 <= i < s.len(),
        0 <= j < s.len(),
        v4_contains(s[i], x),
        v4_contains(s[j], x),
    ensures
        i == j,
{
}

/// In a well-formed zone at most one record contains any given address.
pub proof fn lemma_v6_match_unique(s: Seq<Record<u128>>, x: u128, i: int, j: int)
    requires
        v6_zone_wf(s),
        0 <= i < s.len(),
        0 <= j < s.len(),
        v6_contains(s[i], x),
        v6_contains(s[j], x),
    ensures
        i == j,
{
}

/// The `k`-th 32-bit little-endian field of the database header.
pub open spec fn spec_header_field(data: Seq<u8>, k: int) -> int {
    spec_u32_from_le_bytes(data.subrange(4 * k, 4 * k + 4)) as int
}

/// Whether the header describes a consistent zone of the 4-byte family: the
/// zone lies after the header and inside the buffer, and its byte length is a
/// whole number of records.
pub open spec fn spec_v4_zone_ok(data: Seq<u8>) -> bool {
    &&& data.len() >= 16
    &&& 16 <= spec_header_field(data, 0)
    &&& spec_header_field(data, 0) <= spec_header_field(data, 1)
    &&& spec_header_field(data, 1) <= data.len()
    &&& (spec_header_field(data, 1) - spec_header_field(data, 0)) % 16 == 0
}

/// Whether the header describes a consistent zone of the 16-byte family.
pub open spec fn spec_v6_zone_ok(data: Seq<u8>) -> bool {
    &&& data.len() >= 16
    &&& 16 <= spec_header_field(data, 2)
    &&& spec_header_field(data, 2) <= spec_header_field(data, 3)
    &&& spec_header_field(data, 3) <= data.len()
    &&& (spec_header_field(data, 3) - spec_header_field(data, 2)) % 40 == 0
}

/// The records of the 4-byte family that a database buffer holds: the zone
/// the header declares, or no records at all when the header is corrupt or
/// truncated (the zone fails closed).
pub open spec fn spec_v4_view(data: Seq<u8>) -> Seq<Record<u32>> {
    if spec_v4_zone_ok(data) {
        spec_v4_zone(
            data,
            spec_header_field(data, 0),
            (spec_header_field(data, 1) - spec_header_field(data, 0)) / 16,
        )
    } else {
        Seq::empty()
    }
}

/// The records of the 16-byte family that a database buffer holds; see
/// [`spec_v4_view`].
pub open spec fn spec_v6_view(data: Seq<u8>) -> Seq<Record<u128>> {
    if spec_v6_zone_ok(data) {
        spec_v6_zone(
            data,
            spec_header_field(data, 2),
            (spec_header_field(data, 3) - spec_header_field(data, 2)) / 40,
        )
    } else {
        Seq::empty()
    }
}

/// The record of the 4-byte address family laid out in the first 16 bytes of `b`.
pub open spec fn spec_v4_record(b: Seq<u8>) -> Record<u32> {
    Record {
        start: spec_u32_from_le_bytes(b.subrange(0, 4)),
        end: spec_u32_from_le_bytes(b.subrange(4, 8)),
        location_id: spec_u64_from_le_bytes(b.subrange(8, 16)),
    }
}

/// The record of the 16-byte address family laid out in the first 40 bytes of `b`.
pub open spec fn spec_v6_record(b: Seq<u8>) -> Record<u128> {
    Record {
        start: spec_u128_from_le_bytes(b.subrange(0, 16)),
        end: spec_u128_from_le_bytes(b.subrange(16, 32)),
        location_id: spec_u64_from_le_bytes(b.subrange(32, 40)),
    }
}

/// The `count` records of the 4-byte family stored in `data` from `zone_start` on.
pub open spec fn spec_v4_zone(data: Seq<u8>, zone_start: int, count: int) -> Seq<Record<u32>> {
    Seq::new(count as nat, |i: int| spec_v4_record(data.subrange(zone_start + 16 * i, zone_start + 16 * i + 16)))
}

/// The `count` records of the 16-byte family stored in `data` from `zone_start` on.
pub open spec fn spec_v6_zone(data: Seq<u8>, zone_start: int, count: int) -> Seq<Record<u128>> {
    Seq::new(count as nat, |i: int| spec_v6_record(data.subrange(zone_start + 40 * i, zone_start + 40 * i + 40)))
}

impl Record<u32> {
    /// Reads one record of the 4-byte family from the first 16 bytes of
    /// `bytes`; `None` when the buffer is too short.
    pub fn from_bytes(bytes: &[u8]) -> (r: Option<Record<u32>>)
        ensures
            bytes@.len() >= 16 ==> r == Some(spec_v4_record(bytes@)),
            bytes@.len() < 16 ==> r is None,
    {
        if bytes.len() < V4_RECORD_SIZE {
            return None;
        }
        let start = u32_from_le_bytes(slice_subrange(bytes, 0, 4));
        let end = u32_from_le_bytes(slice_subrange(bytes, 4, 8));
        let location_id = u64_from_le_bytes(slice_subrange(bytes, 8, 16));
        Some(Record { start, end, location_id })
    }
}

impl Record<u128> {
    /// Reads one record of the 16-byte family from the first 40 bytes of
    /// `bytes`; `None` when the buffer is too short.
    pub fn from_bytes(bytes: &[u8]) -> (r: Option<Record<u128>>)
        ensures
            bytes@.len() >= 40 ==> r == Some(spec_v6_record(bytes@)),
            bytes@.len() < 40 ==> r is None,
    {
        if bytes.len() < V6_RECORD_SIZE {
            return None;
        }
        let start = u128_from_le_bytes(slice_subrange(bytes, 0, 16));
        let end = u128_from_le_bytes(slice_subrange(bytes, 16, 32));
        let location_id = u64_from_le_bytes(slice_subrange(bytes, 32, 40));
        Some(Record { start, end, location_id })
    }
}

/// The zone of the 4-byte address family: a window into the database buffer.
pub struct V4Records<'a> {
    data: &'a [u8],
    zone_start: usize,
    len: usize,
}

/// The zone of the 16-byte address family: a window into the database buffer.
pub struct V6Records<'a> {
    data: &'a [u8],
    zone_start: usize,
    len: usize,
}

impl<'a> V4Records<'a> {
    /// The zone lies within the buffer.
    pub closed spec fn wf(self) -> bool {
        self.zone_start + 16 * self.len <= self.data@.len()
    }

    /// The records of this zone, in storage order.
    pub closed spec fn records(self) -> Seq<Record<u32>> {
        spec_v4_zone(self.data@, self.zone_start as int, self.len as int)
    }

    /// A zone of `len` records starting at byte `zone_start` of `data`;
    /// an out-of-bounds description yields the empty zone instead.
    pub fn new(data: &'a [u8], zone_start: usize, len: usize) -> (r: V4Records<'a>)
        ensures
            r.wf(),
            zone_start + 16 * len <= data@.len() ==> r.records() == spec_v4_zone(
                data@,
                zone_start as int,
                len as int,
            ),
            zone_start + 16 * len > data@.len() ==> r.records().len() == 0,
    {
        let data_len = data.len();
        if zone_start <= data_len && len <= (data_len - zone_start) / 16 {
            let r = V4Records { data, zone_start, len };
            proof {
                assert(r.records() =~= spec_v4_zone(data@, zone_start as int, len as int));
            }
            r
        } else {
            V4Records { data, zone_start: 0, len: 0 }
        }
    }

    /// The number of records in the zone.
    pub fn len(&self) -> (r: usize)
        ensures
            r == self.records().len(),
    {
        self.len
    }

    /// The record at `idx`, bounds-checked: `None` when `idx` is past the zone.
    pub fn get(&self, idx: usize) -> (r: Option<Record<u32>>)
        requires
            self.wf(),
        ensures
            idx < self.records().len() ==> r == Some(self.records()[idx as int]),
            idx >= self.records().len() ==> r is None,
    {
        if idx >= self.len {
            return None;
        }
        proof {
            assert(self.data@.len() == self.data.len());
        }
        let offset = self.zone_start + idx * 16;
        let bytes = slice_subrange(self.data, offset, offset + 16);
        let r = Record::<u32>::from_bytes(bytes);
        proof {
            assert(self.records()[idx as int] == spec_v4_record(
                self.data@.subrange(offset as int, offset as int + 16),
            ));
        }
        r
    }

    /// Range binary search: the unique record whose interval contains `x`,
    /// or `None` when `x` lies in a gap or outside the dataset's coverage.
    /// The search result is only meaningful over a well-formed zone; whatever
    /// the zone holds, a returned record does contain `x` and does come from
    /// the zone.
    pub fn binary_search(&self, x: u32) -> (r: Option<Record<u32>>)
        requires
            self.wf(),
        ensures
            r matches Some(rec) ==> v4_contains(rec, x) && exists|i: int|
                0 <= i < self.records().len() && self.records()[i] == rec,
            v4_zone_wf(self.records()) ==> ((r is Some) <==> exists|i: int|
                0 <= i < self.records().len() && v4_contains(#[trigger] self.records()[i], x)),
    {
        let ghost s = self.records();
        let mut size = self.len();
        if size == 0 {
            return None;
        }
        let mut base: usize = 0;
        while size > 1
            invariant
                self.wf(),
                s == self.records(),
                1 <= size,
                base + size <= s.len(),
                v4_zone_wf(s) ==> forall|i: int|
                    0 <= i < s.len() && v4_contains(#[trigger] s[i], x) ==> base <= i < base + size,
            decreases size,
        {
            let half = size / 2;
            let mid = base + half;
            let item = self.get(mid).unwrap();
            proof {
                assert(item == s[mid as int]);
                if v4_zone_wf(s) {
                    if x < item.start {
                        assert forall|i: int|
                            0 <= i < s.len() && v4_contains(#[trigger] s[i], x) implies base <= i
                            < base + (size - half) by {
                            if i > mid {
                                assert(s[mid as int].end < s[i].start);
                            }
                        }
                    } else {
                        assert forall|i: int|
                            0 <= i < s.len() && v4_contains(#[trigger] s[i], x) implies mid <= i
                            < mid + (size - half) by {
                            if i < mid {
                                assert(s[i].end < s[mid as int].start);
                            }
                        }
                    }
                }
            }
            if x >= item.start {
                base = mid;
            }
            size -= half;
        }
        let item = self.get(base).unwrap();
        if x >= item.start && x <= item.end {
            Some(item)
        } else {
            None
        }
    }
}

impl<'a> V6Records<'a> {
    /// The zone lies within the buffer.
    pub closed spec fn wf(self) -> bool {
        self.zone_start + 40 * self.len <= self.data@.len()
    }

    /// The records of this zone, in storage order.
    pub closed spec fn records(self) -> Seq<Record<u128>> {
        spec_v6_zone(self.data@, self.zone_start as int, self.len as int)
    }

    /// A zone of `len` records starting at byte `zone_start` of `data`;
    /// an out-of-bounds description yields the empty zone instead.
    pub fn new(data: &'a [u8], zone_start: usize, len: usize) -> (r: V6Records<'a>)
        ensures
            r.wf(),
            zone_start + 40 * len <= data@.len() ==> r.records() == spec_v6_zone(
                data@,
                zone_start as int,
                len as int,
            ),
            zone_start + 40 * len > data@.len() ==> r.records().len() == 0,
    {
        let data_len = data.len();
        if zone_start <= data_len && len <= (data_len - zone_start) / 40 {
            let r = V6Records { data, zone_start, len };
            proof {
                assert(r.records() =~= spec_v6_zone(data@, zone_start as int, len as int));
            }
            r
        } else {
            V6Records { data, zone_start: 0, len: 0 }
        }
    }

    /// The number of records in the zone.
    pub fn len(&self) -> (r: usize)
        ensures
            r == self.records().len(),
    {
        self.len
    }

    /// The record at `idx`, bounds-checked: `None` when `idx` is past the zone.
    pub fn get(&self, idx: usize) -> (r: Option<Record<u128>>)
        requires
            self.wf(),
        ensures
            idx < self.records().len() ==> r == Some(self.records()[idx as int]),
            idx >= self.records().len() ==> r is None,
    {
        if idx >= self.len {
            return None;
        }
        proof {
            assert(self.data@.len() == self.data.len());
        }
        let offset = self.zone_start + idx * 40;
        let bytes = slice_subrange(self.data, offset, offset + 40);
        let r = Record::<u128>::from_bytes(bytes);
        proof {
            assert(self.records()[idx as int] == spec_v6_record(
                self.data@.subrange(offset as int, offset as int + 40),
            ));
        }
        r
    }

    /// Range binary search: the unique record whose interval contains `x`,
    /// or `None` when `x` lies in a gap or outside the dataset's coverage.
    /// The search result is only meaningful over a well-formed zone; whatever
    /// the zone holds, a returned record does contain `x` and does come from
    /// the zone.
    pub fn binary_search(&self, x: u128) -> (r: Option<Record<u128>>)
        requires
            self.wf(),
        ensures
            r matches Some(rec) ==> v6_contains(rec, x) && exists|i: int|
                0 <= i < self.records().len() && self.records()[i] == rec,
            v6_zone_wf(self.records()) ==> ((r is Some) <==> exists|i: int|
                0 <= i < self.records().len() && v6_contains(#[trigger] self.records()[i], x)),
    {
        let ghost s = self.records();
        let mut size = self.len();
        if size == 0 {
            return None;
        }
        let mut base: usize = 0;
        while size > 1
            invariant
                self.wf(),
                s == self.records(),
                1 <= size,
                base + size <= s.len(),
                v6_zone_wf(s) ==> forall|i: int|
                    0 <= i < s.len() && v6_contains(#[trigger] s[i], x) ==> base <= i < base + size,
            decreases size,
        {
            let half = size / 2;
            let mid = base + half;
            let item = self.get(mid).unwrap();
            proof {
                assert(item == s[mid as int]);
                if v6_zone_wf(s) {
                    if x < item.start {
                        assert forall|i: int|
                            0 <= i < s.len() && v6_contains(#[trigger] s[i], x) implies base <= i
                            < base + (size - half) by {
                            if i > mid {
                                assert(s[mid as int].end < s[i].start);
                            }
                        }
                    } else {
                        assert forall|i: int|
                            0 <= i < s.len() && v6_contains(#[trigger] s[i], x) implies mid <= i
                            < mid + (size - half) by {
                            if i < mid {
                                assert(s[i].end < s[mid as int].start);
                            }
                        }
                    }
                }
            }
            if x >= item.start {
                base = mid;
            }
            size -= half;
        }
        let item = self.get(base).unwrap();
        if x >= item.start && x <= item.end {
            Some(item)
        } else {
            None
        }
    }
}

/// The lookup engine: both zones of one compiled database buffer, derived
/// from its header once, read-only from then on.
pub struct IpDb<'a> {
    v4: V4Records<'a>,
    v6: V6Records<'a>,
}

impl<'a> IpDb<'a> {
    /// Both zones lie within the buffer.
    pub closed spec fn wf(self) -> bool {
        self.v4.wf() && self.v6.wf()
    }

    /// The records of the 4-byte family this engine serves.
    pub closed spec fn v4_records(self) -> Seq<Record<u32>> {
        self.v4.records()
    }

    /// The records of the 16-byte family this engine serves.
    pub closed spec fn v6_records(self) -> Seq<Record<u128>> {
        self.v6.records()
    }

    /// Reads the header of a compiled database buffer and derives the two
    /// zones. A corrupt or truncated header fails closed: the affected zone
    /// comes out empty rather than being trusted.
    pub fn new(data: &'a [u8]) -> (r: IpDb<'a>)
        ensures
            r.wf(),
            r.v4_records() == spec_v4_view(data@),
            r.v6_records() == spec_v6_view(data@),
    {
        let data_len = data.len();
        if data_len < HEADER_SIZE {
            let r = IpDb { v4: V4Records::new(data, 0, 0), v6: V6Records::new(data, 0, 0) };
            proof {
                assert(r.v4_records() =~= spec_v4_view(data@));
                assert(r.v6_records() =~= spec_v6_view(data@));
            }
            return r;
        }
        let zs4 = u32_from_le_bytes(slice_subrange(data, 0, 4)) as usize;
        let ze4 = u32_from_le_bytes(slice_subrange(data, 4, 8)) as usize;
        let zs6 = u32_from_le_bytes(slice_subrange(data, 8, 12)) as usize;
        let ze6 = u32_from_le_bytes(slice_subrange(data, 12, 16)) as usize;
        let v4 = if HEADER_SIZE <= zs4 && zs4 <= ze4 && ze4 <= data_len && (ze4 - zs4)
            % V4_RECORD_SIZE == 0 {
            V4Records::new(data, zs4, (ze4 - zs4) / V4_RECORD_SIZE)
        } else {
            V4Records::new(data, 0, 0)
        };
        let v6 = if HEADER_SIZE <= zs6 && zs6 <= ze6 && ze6 <= data_len && (ze6 - zs6)
            % V6_RECORD_SIZE == 0 {
            V6Records::new(data, zs6, (ze6 - zs6) / V6_RECORD_SIZE)
        } else {
            V6Records::new(data, 0, 0)
        };
        let r = IpDb { v4, v6 };
        proof {
            if !spec_v4_zone_ok(data@) {
                assert(r.v4_records() =~= spec_v4_view(data@));
            }
            if !spec_v6_zone_ok(data@) {
                assert(r.v6_records() =~= spec_v6_view(data@));
            }
        }
        r
    }

    /// Answers a point query: the location of the unique record of the
    /// address's family whose interval contains it, or `None` when the
    /// address lies in a gap or its zone is empty. The match is exact over a
    /// well-formed zone; whatever the zone holds, a returned location comes
    /// from a record of that zone that contains the address.
    pub fn query(&self, addr: &IpAddr) -> (r: Option<Location>)
        requires
            self.wf(),
        ensures
            match *addr {
                IpAddr::V4(x) => {
                    &&& (r matches Some(loc) ==> exists|i: int|
                        0 <= i < self.v4_records().len() && v4_contains(
                            #[trigger] self.v4_records()[i],
                            x,
                        ) && loc.id() == self.v4_records()[i].location_id)
                    &&& (v4_zone_wf(self.v4_records()) ==> ((r is Some) <==> exists|i: int|
                        0 <= i < self.v4_records().len() && v4_contains(
                            #[trigger] self.v4_records()[i],
                            x,
                        )))
                },
                IpAddr::V6(x) => {
                    &&& (r matches Some(loc) ==> exists|i: int|
                        0 <= i < self.v6_records().len() && v6_contains(
                            #[trigger] self.v6_records()[i],
                            x,
                        ) && loc.id() == self.v6_records()[i].location_id)
                    &&& (v6_zone_wf(self.v6_records()) ==> ((r is Some) <==> exists|i: int|
                        0 <= i < self.v6_records().len() && v6_contains(
                            #[trigger] self.v6_records()[i],
                            x,
                        )))
                },
            },
    {
        match addr {
            IpAddr::V4(x) => match self.v4.binary_search(*x) {
                Some(rec) => {
                    proof {
                        let i = choose|i: int|
                            0 <= i < self.v4_records().len() && self.v4_records()[i] == rec;
                        assert(v4_contains(self.v4_records()[i], *x));
                    }
                    Some(Location::from_id(rec.location_id))
                },
                None => None,
            },
            IpAddr::V6(x) => match self.v6.binary_search(*x) {
                Some(rec) => {
                    proof {
                        let i = choose|i: int|
                            0 <= i < self.v6_records().len() && self.v6_records()[i] == rec;
                        assert(v6_contains(self.v6_records()[i], *x));
                    }
                    Some(Location::from_id(rec.location_id))
                },
                None => None,
            },
        }
    }
}

/// Answers one point query against a compiled database buffer; see
/// [`IpDb::query`].
pub fn query(data: &[u8], addr: &IpAddr) -> (r: Option<Location>)
    ensures
        match *addr {
            IpAddr::V4(x) => {
                &&& (r matches Some(loc) ==> exists|i: int|
                    0 <= i < spec_v4_view(data@).len() && v4_contains(
                        #[trigger] spec_v4_view(data@)[i],
                        x,
                    ) && loc.id() == spec_v4_view(data@)[i].location_id)
                &&& (v4_zone_wf(spec_v4_view(data@)) ==> ((r is Some) <==> exists|i: int|
                    0 <= i < spec_v4_view(data@).len() && v4_contains(
                        #[trigger] spec_v4_view(data@)[i],
                        x,
                    )))
            },
            IpAddr::V6(x) => {
                &&& (r matches Some(loc) ==> exists|i: int|
                    0 <= i < spec_v6_view(data@).len() && v6_contains(
                        #[trigger] spec_v6_view(data@)[i],
                        x,
                    ) && loc.id() == spec_v6_view(data@)[i].location_id)
                &&& (v6_zone_wf(spec_v6_view(data@)) ==> ((r is Some) <==> exists|i: int|
                    0 <= i < spec_v6_view(data@).len() && v6_contains(
                        #[trigger] spec_v6_view(data@)[i],
                        x,
                    )))
            },
        },
{
    let db = IpDb::new(data);
    db.query(addr)
}

} // verus!
