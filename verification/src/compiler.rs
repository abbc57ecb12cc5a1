//! The database compiler.
//!
//! Input is line-oriented: each line holds six fields, each field delimited by
//! a pair of quote characters, in the order range start, range end, country
//! code, country name, province name, city name. The tokenizer extracts the
//! quoted substrings positionally; it does not interpret escaping or
//! unquoted separators. A single dash as province or city means "absent".
//!
//! Per row: the country code resolves through the fixed external country
//! table (an unrecognized code drops the row), the bounds parse as unsigned
//! decimal integers of the address family's width (a parse failure drops the
//! row), and the surviving rows' names feed the two dictionaries. Once the
//! dictionaries are final, every row's names re-resolve to their permanent
//! indices and the rows serialize as fixed-width records into one blob.

use vstd::prelude::*;
use vstd::slice::{slice_index_get, slice_subrange, slice_to_vec};

use crate::dict::Dictionary;
use crate::location::Country;

verus! {

/// The quote character that delimits every field.
pub const QUOTE: u8 = 0x22;

/// The marker byte (a single dash) that means an absent province or city.
pub const ABSENT_MARKER: u8 = 0x2D;

/// The address family of one source dataset.
#[derive(Debug, PartialEq, Eq, Structural, PartialOrd, Ord, Hash, Clone, Copy)]
pub enum IpVersion {
    V4,
    V6,
}

/// The six quoted fields of one source line, in positional order.
pub struct Row {
    pub start: Vec<u8>,
    pub end: Vec<u8>,
    pub cc: Vec<u8>,
    pub country: Vec<u8>,
    pub province: Vec<u8>,
    pub city: Vec<u8>,
}

/// The quoted fields of `b` from position `i` on: at the next quote a field
/// opens, and it closes at the quote after that. An unterminated field yields
/// nothing.
pub open spec fn spec_fields_from(b: Seq<u8>, i: int) -> Seq<Seq<u8>>
    decreases b.len() - i,
    when 0 <= i
{
    if i >= b.len() {
        Seq::empty()
    } else if b[i] == QUOTE {
        spec_fields_in(b, i + 1, i + 1)
    } else {
        spec_fields_from(b, i + 1)
    }
}

/// The quoted fields of `b` inside a field that opened at `start`, scanning
/// for the closing quote from position `j` on.
pub open spec fn spec_fields_in(b: Seq<u8>, start: int, j: int) -> Seq<Seq<u8>>
    decreases b.len() - j,
    when 0 <= j
{
    if j >= b.len() {
        Seq::empty()
    } else if b[j] == QUOTE {
        seq![b.subrange(start, j)] + spec_fields_from(b, j + 1)
    } else {
        spec_fields_in(b, start, j + 1)
    }
}

/// The quoted fields of one whole line, in positional order.
pub open spec fn spec_fields(b: Seq<u8>) -> Seq<Seq<u8>> {
    spec_fields_from(b, 0)
}

/// The views of a sequence of owned byte strings.
pub open spec fn spec_views(s: Seq<Vec<u8>>) -> Seq<Seq<u8>> {
    Seq::new(s.len(), |i: int| s[i]@)
}

/// Tokenizes one line: the first six quoted fields, positionally. `None`
/// exactly when the line holds fewer than six quoted fields; any further
/// fields are ignored.
pub fn eat(bytes: &[u8]) -> (r: Option<Row>)
    ensures
        match r {
            Some(row) => {
                &&& spec_fields(bytes@).len() >= 6
                &&& row.start@ == spec_fields(bytes@)[0]
                &&& row.end@ == spec_fields(bytes@)[1]
                &&& row.cc@ == spec_fields(bytes@)[2]
                &&& row.country@ == spec_fields(bytes@)[3]
                &&& row.province@ == spec_fields(bytes@)[4]
                &&& row.city@ == spec_fields(bytes@)[5]
            },
            None => spec_fields(bytes@).len() < 6,
        },
{
    let len = bytes.len();
    let mut fields: Vec<Vec<u8>> = Vec::new();
    let mut idx: usize = 0;
    while idx < len && fields.len() < 6
        invariant
            len == bytes@.len(),
            idx <= len,
            fields@.len() <= 6,
            spec_fields(bytes@) == spec_views(fields@) + spec_fields_from(bytes@, idx as int),
        decreases len - idx,
    {
        let ghost fv0 = spec_views(fields@);
        if *slice_index_get(bytes, idx) == QUOTE {
            let fstart = idx + 1;
            let mut j = fstart;
            while j < len && *slice_index_get(bytes, j) != QUOTE
                invariant
                    len == bytes@.len(),
                    fstart <= j <= len,
                    spec_fields_in(bytes@, fstart as int, fstart as int) == spec_fields_in(
                        bytes@,
                        fstart as int,
                        j as int,
                    ),
                decreases len - j,
            {
                j += 1;
            }
            if j >= len {
                // unterminated field: no further fields on this line
                proof {
                    assert(spec_fields(bytes@) =~= spec_views(fields@));
                }
                return None;
            }
            let field = slice_to_vec(slice_subrange(bytes, fstart, j));
            fields.push(field);
            idx = j + 1;
            proof {
                assert(spec_views(fields@) =~= fv0.push(bytes@.subrange(fstart as int, j as int)));
                assert(spec_fields_in(bytes@, fstart as int, j as int) == seq![
                    bytes@.subrange(fstart as int, j as int),
                ] + spec_fields_from(bytes@, idx as int));
                assert(fv0 + spec_fields_in(bytes@, fstart as int, j as int) =~= spec_views(
                    fields@,
                ) + spec_fields_from(bytes@, idx as int));
            }
        } else {
            idx += 1;
        }
    }
    if fields.len() < 6 {
        proof {
            assert(spec_fields_from(bytes@, idx as int) =~= Seq::<Seq<u8>>::empty());
            assert(spec_fields(bytes@) =~= spec_views(fields@));
        }
        return None;
    }
    proof {
        assert(forall|i: int|
            0 <= i < 6 ==> spec_fields(bytes@)[i] == #[trigger] spec_views(fields@)[i]);
    }
    let city = fields.pop().unwrap();
    let province = fields.pop().unwrap();
    let country = fields.pop().unwrap();
    let cc = fields.pop().unwrap();
    let end = fields.pop().unwrap();
    let start = fields.pop().unwrap();
    Some(Row { start, end, cc, country, province, city })
}

/// Whether `c` is a decimal digit.
pub open spec fn spec_is_digit(c: u8) -> bool {
    0x30 <= c <= 0x39
}

/// Whether `s` consists of decimal digits only.
pub open spec fn spec_all_digits(s: Seq<u8>) -> bool {
    forall|i: int| 0 <= i < s.len() ==> spec_is_digit(#[trigger] s[i])
}

/// The unbounded value of `s` read as a decimal numeral.
pub open spec fn spec_dec_value(s: Seq<u8>) -> int
    decreases s.len(),
{
    if s.len() == 0 {
        0
    } else {
        spec_dec_value(s.drop_last()) * 10 + (s.last() - 0x30)
    }
}

/// A decimal numeral's value is never negative.
pub proof fn lemma_dec_value_nonneg(s: Seq<u8>)
    requires
        spec_all_digits(s),
    ensures
        spec_dec_value(s) >= 0,
    decreases s.len(),
{
    if s.len() > 0 {
        assert(spec_all_digits(s.drop_last()));
        lemma_dec_value_nonneg(s.drop_last());
    }
}

/// A decimal numeral is worth at least any of its prefixes.
pub proof fn lemma_dec_value_prefix_le(s: Seq<u8>, k: int)
    requires
        spec_all_digits(s),
        0 <= k <= s.len(),
    ensures
        spec_dec_value(s.subrange(0, k)) <= spec_dec_value(s),
    decreases s.len() - k,
{
    if k == s.len() {
        assert(s.subrange(0, k) =~= s);
    } else {
        lemma_dec_value_prefix_le(s, k + 1);
        let p = s.subrange(0, k);
        let q = s.subrange(0, k + 1);
        assert(q.drop_last() =~= p);
        assert(spec_all_digits(p));
        lemma_dec_value_nonneg(p);
        assert(spec_dec_value(q) == spec_dec_value(p) * 10 + (s[k] - 0x30));
    }
}

/// Parses an unsigned decimal numeral. `None` exactly when `s` is empty,
/// holds a non-digit, or is worth more than the largest 128-bit value.
pub fn parse_uint(s: &[u8]) -> (r: Option<u128>)
    ensures
        match r {
            Some(v) => s@.len() > 0 && spec_all_digits(s@) && v == spec_dec_value(s@),
            None => s@.len() == 0 || !spec_all_digits(s@) || spec_dec_value(s@) > u128::MAX,
        },
{
    let len = s.len();
    if len == 0 {
        return None;
    }
    let mut acc: u128 = 0;
    let mut i: usize = 0;
    while i < len
        invariant
            len == s@.len(),
            i <= len,
            spec_all_digits(s@.subrange(0, i as int)),
            acc == spec_dec_value(s@.subrange(0, i as int)),
        decreases len - i,
    {
        let c = *slice_index_get(s, i);
        if c < 0x30 || c > 0x39 {
            return None;
        }
        let d = (c - 0x30) as u128;
        proof {
            assert(s@.subrange(0, i + 1).drop_last() =~= s@.subrange(0, i as int));
            assert(spec_all_digits(s@.subrange(0, i + 1)));
        }
        if acc > (u128::MAX - d) / 10 {
            proof {
                assert(spec_dec_value(s@.subrange(0, i + 1)) > u128::MAX);
                if spec_all_digits(s@) {
                    lemma_dec_value_prefix_le(s@, i + 1);
                }
            }
            return None;
        }
        acc = acc * 10 + d;
        i += 1;
    }
    proof {
        assert(s@.subrange(0, len as int) =~= s@);
    }
    Some(acc)
}

/// The largest address value of a family: 32 bits wide for the 4-byte
/// family, 128 bits wide for the 16-byte family.
pub open spec fn spec_family_max(version: IpVersion) -> int {
    match version {
        IpVersion::V4 => u32::MAX as int,
        IpVersion::V6 => u128::MAX as int,
    }
}

/// Whether a province or city field holds the absent marker: a single dash.
pub open spec fn spec_is_absent(f: Seq<u8>) -> bool {
    f.len() == 1 && f[0] == ABSENT_MARKER
}

/// The fixed external country table: each two-letter code's position is the
/// country's numeric index.
pub struct CountryTable {
    codes: Vec<(u8, u8)>,
}

/// Whether a code field matches one two-letter entry of the country table.
pub open spec fn spec_code_matches(code: (u8, u8), cc: Seq<u8>) -> bool {
    cc.len() == 2 && cc[0] == code.0 && cc[1] == code.1
}

/// The index of the first entry of `codes` that a code field matches.
pub open spec fn spec_first_match(codes: Seq<(u8, u8)>, cc: Seq<u8>) -> Option<int>
    decreases codes.len(),
{
    if codes.len() == 0 {
        None
    } else if spec_code_matches(codes[0], cc) {
        Some(0int)
    } else {
        match spec_first_match(codes.drop_first(), cc) {
            Some(i) => Some(i + 1),
            None => None,
        }
    }
}

/// A matched index lies within the table.
pub proof fn lemma_first_match_in_range(codes: Seq<(u8, u8)>, cc: Seq<u8>)
    ensures
        spec_first_match(codes, cc) matches Some(i) ==> 0 <= i < codes.len() && spec_code_matches(
            codes[i],
            cc,
        ),
    decreases codes.len(),
{
    if codes.len() > 0 && !spec_code_matches(codes[0], cc) {
        lemma_first_match_in_range(codes.drop_first(), cc);
    }
}

impl CountryTable {
    /// The two-letter codes, in index order.
    pub closed spec fn codes_spec(self) -> Seq<(u8, u8)> {
        self.codes@
    }

    /// Every index fits the 8-bit country field.
    pub closed spec fn wf(self) -> bool {
        self.codes@.len() <= 256
    }

    /// Wraps a code table; `None` when it has more entries than 8-bit
    /// indices.
    pub fn new(codes: Vec<(u8, u8)>) -> (r: Option<CountryTable>)
        ensures
            match r {
                Some(t) => t.wf() && t.codes_spec() == codes@,
                None => codes@.len() > 256,
            },
    {
        if codes.len() <= 256 {
            Some(CountryTable { codes })
        } else {
            None
        }
    }

    /// The number of countries in the table.
    pub fn len(&self) -> (r: usize)
        ensures
            r == self.codes_spec().len(),
    {
        self.codes.len()
    }

    /// The index of the first table entry matching a code field; `None`
    /// exactly when no entry matches.
    pub fn lookup(&self, cc: &[u8]) -> (r: Option<u8>)
        requires
            self.wf(),
        ensures
            match r {
                Some(i) => spec_first_match(self.codes_spec(), cc@) == Some(i as int),
                None => spec_first_match(self.codes_spec(), cc@) is None,
            },
    {
        match lookup_from(self.codes.as_slice(), cc) {
            Some(i) => {
                proof {
                    lemma_first_match_in_range(self.codes_spec(), cc@);
                }
                Some(i as u8)
            },
            None => None,
        }
    }
}

/// The first index of `codes` whose entry matches the code field, by scan.
fn lookup_from(codes: &[(u8, u8)], cc: &[u8]) -> (r: Option<usize>)
    ensures
        match r {
            Some(i) => spec_first_match(codes@, cc@) == Some(i as int),
            None => spec_first_match(codes@, cc@) is None,
        },
    decreases codes@.len(),
{
    if codes.len() == 0 {
        return None;
    }
    let head = *slice_index_get(codes, 0);
    let matches_head = cc.len() == 2 && *slice_index_get(cc, 0) == head.0 && *slice_index_get(
        cc,
        1,
    ) == head.1;
    if matches_head {
        Some(0)
    } else {
        proof {
            assert(codes@.subrange(1, codes@.len() as int) =~= codes@.drop_first());
        }
        match lookup_from(slice_subrange(codes, 1, codes.len()), cc) {
            Some(i) => {
                proof {
                    lemma_first_match_in_range(codes@.drop_first(), cc@);
                }
                Some(i + 1)
            },
            None => None,
        }
    }
}

/// One parsed source row: address range, country, and the row's own province
/// and city names (absent where the row held the marker).
pub struct Record {
    pub start: u128,
    pub end: u128,
    pub country: Country,
    pub province: Option<Vec<u8>>,
    pub city: Option<Vec<u8>>,
}

/// The mathematical content of one parsed row.
pub struct SpecRecord {
    pub start: u128,
    pub end: u128,
    pub country: u8,
    pub province: Option<Seq<u8>>,
    pub city: Option<Seq<u8>>,
}

/// The mathematical content of a parsed row value.
pub open spec fn spec_record_view(r: Record) -> SpecRecord {
    SpecRecord {
        start: r.start,
        end: r.end,
        country: r.country.index_spec(),
        province: match r.province {
            Some(p) => Some(p@),
            None => None,
        },
        city: match r.city {
            Some(c) => Some(c@),
            None => None,
        },
    }
}

/// Whether one source line yields a record: it tokenizes into six fields,
/// its country code is in the table, and both bounds parse as decimal
/// numerals of the family's width.
pub open spec fn spec_row_ok(line: Seq<u8>, codes: Seq<(u8, u8)>, version: IpVersion) -> bool {
    let f = spec_fields(line);
    &&& f.len() >= 6
    &&& spec_first_match(codes, f[2]) is Some
    &&& f[0].len() > 0 && spec_all_digits(f[0]) && spec_dec_value(f[0]) <= spec_family_max(version)
    &&& f[1].len() > 0 && spec_all_digits(f[1]) && spec_dec_value(f[1]) <= spec_family_max(version)
}

/// The record that an accepted source line yields.
pub open spec fn spec_record_of_line(line: Seq<u8>, codes: Seq<(u8, u8)>) -> SpecRecord {
    let f = spec_fields(line);
    SpecRecord {
        start: spec_dec_value(f[0]) as u128,
        end: spec_dec_value(f[1]) as u128,
        country: spec_first_match(codes, f[2])->Some_0 as u8,
        province: if spec_is_absent(f[4]) {
            None
        } else {
            Some(f[4])
        },
        city: if spec_is_absent(f[5]) {
            None
        } else {
            Some(f[5])
        },
    }
}

/// Parses one source line of the given address family. `None` exactly when
/// the line is malformed, its country code is unrecognized, or a bound does
/// not parse in the family's width: such a row is dropped.
pub fn parse(line: &[u8], countries: &CountryTable, version: IpVersion) -> (r: Option<Record>)
    requires
        countries.wf(),
    ensures
        r is Some <==> spec_row_ok(line@, countries.codes_spec(), version),
        r matches Some(rec) ==> spec_record_view(rec) == spec_record_of_line(
            line@,
            countries.codes_spec(),
        ),
{
    let row = match eat(line) {
        Some(r) => r,
        None => {
            return None;
        },
    };
    let country_index = match countries.lookup(row.cc.as_slice()) {
        Some(i) => i,
        None => {
            return None;
        },
    };
    let start = match parse_uint(row.start.as_slice()) {
        Some(v) => v,
        None => {
            return None;
        },
    };
    let end = match parse_uint(row.end.as_slice()) {
        Some(v) => v,
        None => {
            return None;
        },
    };
    match version {
        IpVersion::V4 => {
            if start > u32::MAX as u128 || end > u32::MAX as u128 {
                return None;
            }
        },
        IpVersion::V6 => {},
    }
    let province_absent = row.province.len() == 1 && row.province[0] == ABSENT_MARKER;
    let city_absent = row.city.len() == 1 && row.city[0] == ABSENT_MARKER;
    let rec = Record {
        start,
        end,
        country: Country::from_index(country_index),
        province: if province_absent {
            None
        } else {
            Some(row.province)
        },
        city: if city_absent {
            None
        } else {
            Some(row.city)
        },
    };
    Some(rec)
}

/// The records of a whole dataset: each accepted line's record, in line
/// order; dropped lines contribute nothing.
pub open spec fn spec_parse_dataset(
    lines: Seq<Seq<u8>>,
    codes: Seq<(u8, u8)>,
    version: IpVersion,
) -> Seq<SpecRecord>
    decreases lines.len(),
{
    if lines.len() == 0 {
        Seq::empty()
    } else {
        let rest = spec_parse_dataset(lines.drop_first(), codes, version);
        if spec_row_ok(lines[0], codes, version) {
            seq![spec_record_of_line(lines[0], codes)] + rest
        } else {
            rest
        }
    }
}

/// The mathematical contents of a sequence of parsed rows.
pub open spec fn spec_record_views(s: Seq<Record>) -> Seq<SpecRecord> {
    Seq::new(s.len(), |i: int| spec_record_view(s[i]))
}

/// Every bound of a parsed dataset fits the family's width.
pub proof fn lemma_parse_dataset_bounds(lines: Seq<Seq<u8>>, codes: Seq<(u8, u8)>, version: IpVersion)
    ensures
        forall|k: int|
            0 <= k < spec_parse_dataset(lines, codes, version).len() ==> {
                let rec = #[trigger] spec_parse_dataset(lines, codes, version)[k];
                rec.start <= spec_family_max(version) && rec.end <= spec_family_max(version)
            },
    decreases lines.len(),
{
    if lines.len() > 0 {
        lemma_parse_dataset_bounds(lines.drop_first(), codes, version);
        if spec_row_ok(lines[0], codes, version) {
            let f = spec_fields(lines[0]);
            lemma_dec_value_nonneg(f[0]);
            lemma_dec_value_nonneg(f[1]);
        }
    }
}

/// Parses one dataset line by line, keeping the accepted rows in order.
pub fn parse_dataset(lines: &Vec<Vec<u8>>, countries: &CountryTable, version: IpVersion) -> (out:
    Vec<Record>)
    requires
        countries.wf(),
    ensures
        spec_record_views(out@) == spec_parse_dataset(
            spec_views(lines@),
            countries.codes_spec(),
            version,
        ),
{
    let ghost lv = spec_views(lines@);
    let ghost codes = countries.codes_spec();
    let mut out: Vec<Record> = Vec::new();
    let len = lines.len();
    let mut i: usize = 0;
    proof {
        assert(lv.skip(0) =~= lv);
        assert(spec_record_views(out@) + spec_parse_dataset(lv, codes, version)
            =~= spec_parse_dataset(lv, codes, version));
    }
    while i < len
        invariant
            countries.wf(),
            codes == countries.codes_spec(),
            lv == spec_views(lines@),
            len == lines@.len(),
            i <= len,
            spec_parse_dataset(lv, codes, version) == spec_record_views(out@)
                + spec_parse_dataset(lv.skip(i as int), codes, version),
        decreases len - i,
    {
        let ghost out0 = spec_record_views(out@);
        proof {
            assert(lv.skip(i as int).len() > 0);
            assert(lv.skip(i as int)[0] == lines@[i as int]@);
            assert(lv.skip(i as int).drop_first() =~= lv.skip(i + 1));
        }
        match parse(&lines[i], countries, version) {
            Some(rec) => {
                out.push(rec);
                proof {
                    assert(spec_record_views(out@) =~= out0.push(spec_record_of_line(
                        lv.skip(i as int)[0],
                        codes,
                    )));
                    assert(out0 + (seq![spec_record_of_line(lv.skip(i as int)[0], codes)]
                        + spec_parse_dataset(lv.skip(i + 1), codes, version)) =~= spec_record_views(
                        out@,
                    ) + spec_parse_dataset(lv.skip(i + 1), codes, version));
                }
            },
            None => {},
        }
        i += 1;
    }
    proof {
        assert(lv.skip(len as int) =~= Seq::<Seq<u8>>::empty());
        assert(spec_record_views(out@) + spec_parse_dataset(
            lv.skip(len as int),
            codes,
            version,
        ) =~= spec_record_views(out@));
    }
    out
}

/// Whether some record of a dataset carries this province name.
pub open spec fn spec_has_province(recs: Seq<SpecRecord>, n: Seq<u8>) -> bool {
    exists|k: int| 0 <= k < recs.len() && (#[trigger] recs[k]).province == Some(n)
}

/// Whether some record of a dataset carries this city name.
pub open spec fn spec_has_city(recs: Seq<SpecRecord>, n: Seq<u8>) -> bool {
    exists|k: int| 0 <= k < recs.len() && (#[trigger] recs[k]).city == Some(n)
}

/// Feeds every province and city name a dataset's rows carry into the two
/// growing dictionaries.
pub fn collect_names(records: &Vec<Record>, provinces: &mut Dictionary, cities: &mut Dictionary)
    requires
        old(provinces).wf(),
        old(cities).wf(),
    ensures
        final (provinces).wf(),
        final (cities).wf(),
        forall|n: Seq<u8>| #[trigger]
            final (provinces).names().contains(n) <==> old(provinces).names().contains(n)
                || spec_has_province(spec_record_views(records@), n),
        forall|n: Seq<u8>| #[trigger]
            final (cities).names().contains(n) <==> old(cities).names().contains(n)
                || spec_has_city(spec_record_views(records@), n),
{
    let ghost recs = spec_record_views(records@);
    let len = records.len();
    let mut k: usize = 0;
    while k < len
        invariant
            len == records@.len(),
            recs == spec_record_views(records@),
            k <= len,
            provinces.wf(),
            cities.wf(),
            forall|n: Seq<u8>| #[trigger]
                provinces.names().contains(n) <==> old(provinces).names().contains(n) || exists|
                    j: int,
                |
                    0 <= j < k && (#[trigger] recs[j]).province == Some(n),
            forall|n: Seq<u8>| #[trigger]
                cities.names().contains(n) <==> old(cities).names().contains(n) || exists|j: int|
                    0 <= j < k && (#[trigger] recs[j]).city == Some(n),
        decreases len - k,
    {
        match &records[k].province {
            Some(p) => {
                proof {
                    assert(recs[k as int].province == Some(p@));
                }
                provinces.insert(p.as_slice());
            },
            None => {},
        }
        match &records[k].city {
            Some(c) => {
                proof {
                    assert(recs[k as int].city == Some(c@));
                }
                cities.insert(c.as_slice());
            },
            None => {},
        }
        k += 1;
    }
}

/// The permanent index a name resolves to: the name's position in the final
/// dictionary, or the sentinel when the name is absent or not in the
/// dictionary.
pub open spec fn spec_resolved_index(names: Seq<Seq<u8>>, name: Option<Seq<u8>>, sentinel: int) -> int {
    match name {
        None => sentinel,
        Some(n) => if names.contains(n) {
            names.index_of(n)
        } else {
            sentinel
        },
    }
}

/// The zone records of the 4-byte family that a dataset compiles to, once
/// both dictionaries are final.
pub open spec fn spec_resolve_v4(
    recs: Seq<SpecRecord>,
    pnames: Seq<Seq<u8>>,
    cnames: Seq<Seq<u8>>,
) -> Seq<crate::db::Record<u32>> {
    Seq::new(
        recs.len(),
        |i: int|
            crate::db::Record::<u32> {
                start: recs[i].start as u32,
                end: recs[i].end as u32,
                location_id: crate::location::spec_encode(
                    recs[i].country,
                    spec_resolved_index(pnames, recs[i].province, 0xFFFF) as u16,
                    spec_resolved_index(cnames, recs[i].city, 0xFFFF_FFFF) as u32,
                ),
            },
    )
}

/// The zone records of the 16-byte family that a dataset compiles to.
pub open spec fn spec_resolve_v6(
    recs: Seq<SpecRecord>,
    pnames: Seq<Seq<u8>>,
    cnames: Seq<Seq<u8>>,
) -> Seq<crate::db::Record<u128>> {
    Seq::new(
        recs.len(),
        |i: int|
            crate::db::Record::<u128> {
                start: recs[i].start,
                end: recs[i].end,
                location_id: crate::location::spec_encode(
                    recs[i].country,
                    spec_resolved_index(pnames, recs[i].province, 0xFFFF) as u16,
                    spec_resolved_index(cnames, recs[i].city, 0xFFFF_FFFF) as u32,
                ),
            },
    )
}

/// Resolves one row's province name to its final dictionary index, falling
/// back to the sentinel where the name is absent or not found.
fn resolve_province(province: &Option<Vec<u8>>, provinces: &Dictionary) -> (r: u16)
    requires
        provinces.wf(),
        provinces.names().len() < 0xFFFF,
    ensures
        r == spec_resolved_index(
            provinces.names(),
            match *province {
                Some(ref p) => Some(p@),
                None => None,
            },
            0xFFFF,
        ),
{
    match province {
        None => crate::location::PROVINCE_SENTINEL,
        Some(p) => match provinces.name_to_index(p.as_slice()) {
            Some(idx) => {
                proof {
                    assert(provinces.names().contains(p@));
                    let j = provinces.names().index_of(p@);
                    crate::dict::lemma_dictionary_round_trip(
                        provinces.names(),
                        idx as int,
                        j,
                    );
                }
                idx as u16
            },
            None => crate::location::PROVINCE_SENTINEL,
        },
    }
}

/// Resolves one row's city name to its final dictionary index, falling back
/// to the sentinel where the name is absent or not found.
fn resolve_city(city: &Option<Vec<u8>>, cities: &Dictionary) -> (r: u32)
    requires
        cities.wf(),
        cities.names().len() < 0xFFFF_FFFF,
    ensures
        r == spec_resolved_index(
            cities.names(),
            match *city {
                Some(ref c) => Some(c@),
                None => None,
            },
            0xFFFF_FFFF,
        ),
{
    match city {
        None => crate::location::CITY_SENTINEL,
        Some(c) => match cities.name_to_index(c.as_slice()) {
            Some(idx) => {
                proof {
                    assert(cities.names().contains(c@));
                    let j = cities.names().index_of(c@);
                    crate::dict::lemma_dictionary_round_trip(cities.names(), idx as int, j);
                }
                idx as u32
            },
            None => crate::location::CITY_SENTINEL,
        },
    }
}

/// Re-resolves every parsed row of the 4-byte family against the final
/// dictionaries and composes its fixed-width zone record.
pub fn resolve_v4(records: &Vec<Record>, provinces: &Dictionary, cities: &Dictionary) -> (out: Vec<
    crate::db::Record<u32>,
>)
    requires
        provinces.wf(),
        cities.wf(),
        provinces.names().len() < 0xFFFF,
        cities.names().len() < 0xFFFF_FFFF,
        forall|i: int|
            0 <= i < records@.len() ==> (#[trigger] records@[i]).start <= u32::MAX
                && records@[i].end <= u32::MAX,
    ensures
        out@ == spec_resolve_v4(spec_record_views(records@), provinces.names(), cities.names()),
{
    let ghost recs = spec_record_views(records@);
    let ghost target = spec_resolve_v4(recs, provinces.names(), cities.names());
    let mut out: Vec<crate::db::Record<u32>> = Vec::new();
    let len = records.len();
    let mut i: usize = 0;
    while i < len
        invariant
            len == records@.len(),
            recs == spec_record_views(records@),
            target == spec_resolve_v4(recs, provinces.names(), cities.names()),
            provinces.wf(),
            cities.wf(),
            provinces.names().len() < 0xFFFF,
            cities.names().len() < 0xFFFF_FFFF,
            forall|j: int|
                0 <= j < records@.len() ==> (#[trigger] records@[j]).start <= u32::MAX
                    && records@[j].end <= u32::MAX,
            i <= len,
            out@.len() == i,
            forall|j: int| 0 <= j < i ==> out@[j] == target[j],
        decreases len - i,
    {
        let rec = &records[i];
        let pid = resolve_province(&rec.province, provinces);
        let cid = resolve_city(&rec.city, cities);
        let location = crate::location::Location::new(rec.country.index(), pid, cid);
        out.push(
            crate::db::Record::<u32> {
                start: rec.start as u32,
                end: rec.end as u32,
                location_id: location.to_id(),
            },
        );
        i += 1;
    }
    proof {
        assert(out@ =~= target);
    }
    out
}

/// Re-resolves every parsed row of the 16-byte family against the final
/// dictionaries and composes its fixed-width zone record.
pub fn resolve_v6(records: &Vec<Record>, provinces: &Dictionary, cities: &Dictionary) -> (out: Vec<
    crate::db::Record<u128>,
>)
    requires
        provinces.wf(),
        cities.wf(),
        provinces.names().len() < 0xFFFF,
        cities.names().len() < 0xFFFF_FFFF,
    ensures
        out@ == spec_resolve_v6(spec_record_views(records@), provinces.names(), cities.names()),
{
    let ghost recs = spec_record_views(records@);
    let ghost target = spec_resolve_v6(recs, provinces.names(), cities.names());
    let mut out: Vec<crate::db::Record<u128>> = Vec::new();
    let len = records.len();
    let mut i: usize = 0;
    while i < len
        invariant
            len == records@.len(),
            recs == spec_record_views(records@),
            target == spec_resolve_v6(recs, provinces.names(), cities.names()),
            provinces.wf(),
            cities.wf(),
            provinces.names().len() < 0xFFFF,
            cities.names().len() < 0xFFFF_FFFF,
            i <= len,
            out@.len() == i,
            forall|j: int| 0 <= j < i ==> out@[j] == target[j],
        decreases len - i,
    {
        let rec = &records[i];
        let pid = resolve_province(&rec.province, provinces);
        let cid = resolve_city(&rec.city, cities);
        let location = crate::location::Location::new(rec.country.index(), pid, cid);
        out.push(
            crate::db::Record::<u128> {
                start: rec.start,
                end: rec.end,
                location_id: location.to_id(),
            },
        );
        i += 1;
    }
    proof {
        assert(out@ =~= target);
    }
    out
}

/// The 16 wire bytes of one record of the 4-byte family.
pub open spec fn spec_v4_record_bytes(r: crate::db::Record<u32>) -> Seq<u8> {
    vstd::bytes::spec_u32_to_le_bytes(r.start) + vstd::bytes::spec_u32_to_le_bytes(r.end)
        + vstd::bytes::spec_u64_to_le_bytes(r.location_id)
}

/// The 40 wire bytes of one record of the 16-byte family.
pub open spec fn spec_v6_record_bytes(r: crate::db::Record<u128>) -> Seq<u8> {
    vstd::bytes::spec_u128_to_le_bytes(r.start) + vstd::bytes::spec_u128_to_le_bytes(r.end)
        + vstd::bytes::spec_u64_to_le_bytes(r.location_id)
}

/// The wire bytes of a whole zone of the 4-byte family: its records'
/// fixed-width encodings, back to back, with no padding.
pub open spec fn spec_v4_zone_bytes(s: Seq<crate::db::Record<u32>>) -> Seq<u8>
    decreases s.len(),
{
    if s.len() == 0 {
        Seq::empty()
    } else {
        spec_v4_zone_bytes(s.drop_last()) + spec_v4_record_bytes(s.last())
    }
}

/// The wire bytes of a whole zone of the 16-byte family.
pub open spec fn spec_v6_zone_bytes(s: Seq<crate::db::Record<u128>>) -> Seq<u8>
    decreases s.len(),
{
    if s.len() == 0 {
        Seq::empty()
    } else {
        spec_v6_zone_bytes(s.drop_last()) + spec_v6_record_bytes(s.last())
    }
}

/// A zone's wire form is 16 bytes per record.
pub proof fn lemma_v4_zone_bytes_len(s: Seq<crate::db::Record<u32>>)
    ensures
        spec_v4_zone_bytes(s).len() == 16 * s.len(),
    decreases s.len(),
{
    vstd::bytes::lemma_auto_spec_u32_to_from_le_bytes();
    vstd::bytes::lemma_auto_spec_u64_to_from_le_bytes();
    if s.len() > 0 {
        lemma_v4_zone_bytes_len(s.drop_last());
    }
}

/// A zone's wire form is 40 bytes per record.
pub proof fn lemma_v6_zone_bytes_len(s: Seq<crate::db::Record<u128>>)
    ensures
        spec_v6_zone_bytes(s).len() == 40 * s.len(),
    decreases s.len(),
{
    vstd::bytes::lemma_auto_spec_u128_to_from_le_bytes();
    vstd::bytes::lemma_auto_spec_u64_to_from_le_bytes();
    if s.len() > 0 {
        lemma_v6_zone_bytes_len(s.drop_last());
    }
}

/// The `j`-th 16-byte slot of a zone's wire form holds the `j`-th record.
pub proof fn lemma_v4_zone_bytes_index(s: Seq<crate::db::Record<u32>>, j: int)
    requires
        0 <= j < s.len(),
    ensures
        spec_v4_zone_bytes(s).subrange(16 * j, 16 * j + 16) == spec_v4_record_bytes(s[j]),
    decreases s.len(),
{
    vstd::bytes::lemma_auto_spec_u32_to_from_le_bytes();
    vstd::bytes::lemma_auto_spec_u64_to_from_le_bytes();
    lemma_v4_zone_bytes_len(s.drop_last());
    if j == s.len() - 1 {
        assert(spec_v4_zone_bytes(s).subrange(16 * j, 16 * j + 16) =~= spec_v4_record_bytes(s[j]));
    } else {
        lemma_v4_zone_bytes_index(s.drop_last(), j);
        assert(spec_v4_zone_bytes(s).subrange(16 * j, 16 * j + 16) =~= spec_v4_zone_bytes(
            s.drop_last(),
        ).subrange(16 * j, 16 * j + 16));
    }
}

/// The `j`-th 40-byte slot of a zone's wire form holds the `j`-th record.
pub proof fn lemma_v6_zone_bytes_index(s: Seq<crate::db::Record<u128>>, j: int)
    requires
        0 <= j < s.len(),
    ensures
        spec_v6_zone_bytes(s).subrange(40 * j, 40 * j + 40) == spec_v6_record_bytes(s[j]),
    decreases s.len(),
{
    vstd::bytes::lemma_auto_spec_u128_to_from_le_bytes();
    vstd::bytes::lemma_auto_spec_u64_to_from_le_bytes();
    lemma_v6_zone_bytes_len(s.drop_last());
    if j == s.len() - 1 {
        assert(spec_v6_zone_bytes(s).subrange(40 * j, 40 * j + 40) =~= spec_v6_record_bytes(s[j]));
    } else {
        lemma_v6_zone_bytes_index(s.drop_last(), j);
        assert(spec_v6_zone_bytes(s).subrange(40 * j, 40 * j + 40) =~= spec_v6_zone_bytes(
            s.drop_last(),
        ).subrange(40 * j, 40 * j + 40));
    }
}

/// Decoding a record's wire form recovers the record.
pub proof fn lemma_v4_record_round_trip(r: crate::db::Record<u32>)
    ensures
        crate::db::spec_v4_record(spec_v4_record_bytes(r)) == r,
{
    vstd::bytes::lemma_auto_spec_u32_to_from_le_bytes();
    vstd::bytes::lemma_auto_spec_u64_to_from_le_bytes();
    let b = spec_v4_record_bytes(r);
    assert(b.subrange(0, 4) =~= vstd::bytes::spec_u32_to_le_bytes(r.start));
    assert(b.subrange(4, 8) =~= vstd::bytes::spec_u32_to_le_bytes(r.end));
    assert(b.subrange(8, 16) =~= vstd::bytes::spec_u64_to_le_bytes(r.location_id));
}

/// Decoding a record's wire form recovers the record.
pub proof fn lemma_v6_record_round_trip(r: crate::db::Record<u128>)
    ensures
        crate::db::spec_v6_record(spec_v6_record_bytes(r)) == r,
{
    vstd::bytes::lemma_auto_spec_u128_to_from_le_bytes();
    vstd::bytes::lemma_auto_spec_u64_to_from_le_bytes();
    let b = spec_v6_record_bytes(r);
    assert(b.subrange(0, 16) =~= vstd::bytes::spec_u128_to_le_bytes(r.start));
    assert(b.subrange(16, 32) =~= vstd::bytes::spec_u128_to_le_bytes(r.end));
    assert(b.subrange(32, 40) =~= vstd::bytes::spec_u64_to_le_bytes(r.location_id));
}

/// Serializes the two zones behind a 16-byte header of four 32-bit
/// little-endian offsets. `None` exactly when the blob would outgrow what the
/// 32-bit offsets can express; otherwise the blob decodes back to exactly the
/// given records.
pub fn serialize(v4: &Vec<crate::db::Record<u32>>, v6: &Vec<crate::db::Record<u128>>) -> (r:
    Option<Vec<u8>>)
    ensures
        match r {
            Some(blob) => {
                &&& blob@.len() == 16 + 16 * v4@.len() + 40 * v6@.len()
                &&& blob@.len() <= u32::MAX
                &&& crate::db::spec_v4_view(blob@) == v4@
                &&& crate::db::spec_v6_view(blob@) == v6@
            },
            None => 16 + 16 * v4@.len() + 40 * v6@.len() > u32::MAX,
        },
{
    let n4 = v4.len();
    let n6 = v6.len();
    if n4 > ((u32::MAX as usize) - 16) / 16 {
        return None;
    }
    let v4_end = 16 + 16 * n4;
    if n6 > ((u32::MAX as usize) - v4_end) / 40 {
        return None;
    }
    let v6_end = v4_end + 40 * n6;
    proof {
        vstd::bytes::lemma_auto_spec_u32_to_from_le_bytes();
        vstd::bytes::lemma_auto_spec_u64_to_from_le_bytes();
        vstd::bytes::lemma_auto_spec_u128_to_from_le_bytes();
    }
    let mut blob: Vec<u8> = Vec::new();
    let mut part = vstd::bytes::u32_to_le_bytes(16u32);
    blob.append(&mut part);
    let mut part = vstd::bytes::u32_to_le_bytes(v4_end as u32);
    blob.append(&mut part);
    let mut part = vstd::bytes::u32_to_le_bytes(v4_end as u32);
    blob.append(&mut part);
    let mut part = vstd::bytes::u32_to_le_bytes(v6_end as u32);
    blob.append(&mut part);
    let ghost hdr = blob@;
    proof {
        assert(hdr.len() == 16);
        assert(hdr.subrange(0, 4) =~= vstd::bytes::spec_u32_to_le_bytes(16u32));
        assert(hdr.subrange(4, 8) =~= vstd::bytes::spec_u32_to_le_bytes(v4_end as u32));
        assert(hdr.subrange(8, 12) =~= vstd::bytes::spec_u32_to_le_bytes(v4_end as u32));
        assert(hdr.subrange(12, 16) =~= vstd::bytes::spec_u32_to_le_bytes(v6_end as u32));
        assert(blob@ =~= hdr + spec_v4_zone_bytes(v4@.subrange(0, 0)));
    }
    let mut i: usize = 0;
    while i < n4
        invariant
            n4 == v4@.len(),
            i <= n4,
            blob@ == hdr + spec_v4_zone_bytes(v4@.subrange(0, i as int)),
        decreases n4 - i,
    {
        let ghost prev = blob@;
        let rec = v4[i];
        let mut part = vstd::bytes::u32_to_le_bytes(rec.start);
        blob.append(&mut part);
        let mut part = vstd::bytes::u32_to_le_bytes(rec.end);
        blob.append(&mut part);
        let mut part = vstd::bytes::u64_to_le_bytes(rec.location_id);
        blob.append(&mut part);
        proof {
            assert(v4@.subrange(0, i + 1).drop_last() =~= v4@.subrange(0, i as int));
            assert(v4@.subrange(0, i + 1).last() == v4@[i as int]);
            assert(blob@ =~= hdr + spec_v4_zone_bytes(v4@.subrange(0, i + 1)));
        }
        i += 1;
    }
    proof {
        assert(v4@.subrange(0, n4 as int) =~= v4@);
        assert(blob@ =~= hdr + spec_v4_zone_bytes(v4@) + spec_v6_zone_bytes(v6@.subrange(0, 0)));
    }
    let ghost with_v4 = blob@;
    let mut i: usize = 0;
    while i < n6
        invariant
            n6 == v6@.len(),
            i <= n6,
            with_v4 == hdr + spec_v4_zone_bytes(v4@),
            blob@ == with_v4 + spec_v6_zone_bytes(v6@.subrange(0, i as int)),
        decreases n6 - i,
    {
        let rec = v6[i];
        let mut part = vstd::bytes::u128_to_le_bytes(rec.start);
        blob.append(&mut part);
        let mut part = vstd::bytes::u128_to_le_bytes(rec.end);
        blob.append(&mut part);
        let mut part = vstd::bytes::u64_to_le_bytes(rec.location_id);
        blob.append(&mut part);
        proof {
            assert(v6@.subrange(0, i + 1).drop_last() =~= v6@.subrange(0, i as int));
            assert(v6@.subrange(0, i + 1).last() == v6@[i as int]);
            assert(blob@ =~= with_v4 + spec_v6_zone_bytes(v6@.subrange(0, i + 1)));
        }
        i += 1;
    }
    proof {
        vstd::bytes::lemma_auto_spec_u32_to_from_le_bytes();
        lemma_v4_zone_bytes_len(v4@);
        lemma_v6_zone_bytes_len(v6@);
        assert(v6@.subrange(0, n6 as int) =~= v6@);
        assert(blob@ =~= hdr + spec_v4_zone_bytes(v4@) + spec_v6_zone_bytes(v6@));
        assert(blob@.len() == 16 + 16 * v4@.len() + 40 * v6@.len());
        // the header decodes to the zone bounds it was built from
        assert(blob@.subrange(0, 4) =~= hdr.subrange(0, 4));
        assert(blob@.subrange(4, 8) =~= hdr.subrange(4, 8));
        assert(blob@.subrange(8, 12) =~= hdr.subrange(8, 12));
        assert(blob@.subrange(12, 16) =~= hdr.subrange(12, 16));
        assert(crate::db::spec_header_field(blob@, 0) == 16);
        assert(crate::db::spec_header_field(blob@, 1) == v4_end);
        assert(crate::db::spec_header_field(blob@, 2) == v4_end);
        assert(crate::db::spec_header_field(blob@, 3) == v6_end);
        assert(crate::db::spec_v4_zone_ok(blob@));
        assert(crate::db::spec_v6_zone_ok(blob@));
        // each record slot of the blob decodes to the record it encodes
        assert forall|j: int| 0 <= j < v4@.len() implies crate::db::spec_v4_view(blob@)[j]
            == v4@[j] by {
            lemma_v4_zone_bytes_index(v4@, j);
            lemma_v4_record_round_trip(v4@[j]);
            assert(blob@.subrange(16 + 16 * j, 16 + 16 * j + 16) =~= spec_v4_zone_bytes(
                v4@,
            ).subrange(16 * j, 16 * j + 16));
        }
        assert(crate::db::spec_v4_view(blob@) =~= v4@);
        assert forall|j: int| 0 <= j < v6@.len() implies crate::db::spec_v6_view(blob@)[j]
            == v6@[j] by {
            lemma_v6_zone_bytes_index(v6@, j);
            lemma_v6_record_round_trip(v6@[j]);
            assert(blob@.subrange(v4_end + 40 * j, v4_end + 40 * j + 40) =~= spec_v6_zone_bytes(
                v6@,
            ).subrange(40 * j, 40 * j + 40));
        }
        assert(crate::db::spec_v6_view(blob@) =~= v6@);
    }
    Some(blob)
}

/// Why a compilation aborted: the chosen encoding cannot represent the
/// input, so aborting beats silently truncating indices or offsets.
#[derive(Debug, PartialEq, Eq, Structural, Clone, Copy)]
pub enum CompileError {
    /// The datasets carry at least as many distinct province names as the
    /// 16-bit index space less its sentinel.
    TooManyProvinces,
    /// The datasets carry at least as many distinct city names as the 32-bit
    /// index space less its sentinel.
    TooManyCities,
    /// The blob would outgrow what the header's 32-bit offsets can express.
    DatabaseTooLarge,
}

/// A compiled generation: the binary blob and the two dictionaries it was
/// built with. They are only meaningful together.
pub struct CompiledDb {
    pub blob: Vec<u8>,
    pub provinces: Dictionary,
    pub cities: Dictionary,
}

/// The distinct province names that two parsed datasets carry.
pub open spec fn spec_province_set(recs4: Seq<SpecRecord>, recs6: Seq<SpecRecord>) -> Set<Seq<u8>> {
    Set::new(|n: Seq<u8>| spec_has_province(recs4, n) || spec_has_province(recs6, n))
}

/// The distinct city names that two parsed datasets carry.
pub open spec fn spec_city_set(recs4: Seq<SpecRecord>, recs6: Seq<SpecRecord>) -> Set<Seq<u8>> {
    Set::new(|n: Seq<u8>| spec_has_city(recs4, n) || spec_has_city(recs6, n))
}

/// Compiles the two raw datasets against the fixed country table into one
/// database generation: parses every line (dropping malformed rows), builds
/// both dictionaries from the surviving rows' names, re-resolves every row
/// against the final dictionaries, and serializes the zones behind the
/// header.
pub fn compile(v4_lines: &Vec<Vec<u8>>, v6_lines: &Vec<Vec<u8>>, countries: &CountryTable) -> (r:
    Result<CompiledDb, CompileError>)
    requires
        countries.wf(),
    ensures
        ({
            let recs4 = spec_parse_dataset(
                spec_views(v4_lines@),
                countries.codes_spec(),
                IpVersion::V4,
            );
            let recs6 = spec_parse_dataset(
                spec_views(v6_lines@),
                countries.codes_spec(),
                IpVersion::V6,
            );
            match r {
                Ok(out) => {
                    &&& out.provinces.wf() && out.provinces.names().len() < 0xFFFF
                    &&& out.cities.wf() && out.cities.names().len() < 0xFFFF_FFFF
                    &&& forall|n: Seq<u8>| #[trigger]
                        out.provinces.names().contains(n) <==> spec_has_province(recs4, n)
                            || spec_has_province(recs6, n)
                    &&& forall|n: Seq<u8>| #[trigger]
                        out.cities.names().contains(n) <==> spec_has_city(recs4, n)
                            || spec_has_city(recs6, n)
                    &&& crate::db::spec_v4_view(out.blob@) == spec_resolve_v4(
                        recs4,
                        out.provinces.names(),
                        out.cities.names(),
                    )
                    &&& crate::db::spec_v6_view(out.blob@) == spec_resolve_v6(
                        recs6,
                        out.provinces.names(),
                        out.cities.names(),
                    )
                },
                Err(CompileError::TooManyProvinces) => spec_province_set(recs4, recs6).finite()
                    && spec_province_set(recs4, recs6).len() >= 0xFFFF,
                Err(CompileError::TooManyCities) => spec_city_set(recs4, recs6).finite()
                    && spec_city_set(recs4, recs6).len() >= 0xFFFF_FFFF,
                Err(CompileError::DatabaseTooLarge) => 16 + 16 * recs4.len() + 40 * recs6.len()
                    > u32::MAX,
            }
        }),
{
    let ghost codes = countries.codes_spec();
    let records4 = parse_dataset(v4_lines, countries, IpVersion::V4);
    let records6 = parse_dataset(v6_lines, countries, IpVersion::V6);
    let ghost recs4 = spec_record_views(records4@);
    let ghost recs6 = spec_record_views(records6@);
    let mut provinces = Dictionary::new();
    let mut cities = Dictionary::new();
    collect_names(&records4, &mut provinces, &mut cities);
    collect_names(&records6, &mut provinces, &mut cities);
    proof {
        assert(provinces.names().to_set() =~= spec_province_set(recs4, recs6));
        assert(cities.names().to_set() =~= spec_city_set(recs4, recs6));
    }
    if provinces.len() >= 0xFFFF {
        proof {
            crate::dict::lemma_sorted_names_count(provinces.names());
        }
        return Err(CompileError::TooManyProvinces);
    }
    if cities.len() as u64 >= 0xFFFF_FFFFu64 {
        proof {
            crate::dict::lemma_sorted_names_count(cities.names());
        }
        return Err(CompileError::TooManyCities);
    }
    proof {
        lemma_parse_dataset_bounds(spec_views(v4_lines@), codes, IpVersion::V4);
        assert(forall|i: int|
            0 <= i < records4@.len() ==> (#[trigger] records4@[i]).start <= u32::MAX
                && records4@[i].end <= u32::MAX) by {
            assert(forall|i: int|
                0 <= i < records4@.len() ==> spec_record_view(#[trigger] records4@[i]) == recs4[i]);
        }
    }
    let zone4 = resolve_v4(&records4, &provinces, &cities);
    let zone6 = resolve_v6(&records6, &provinces, &cities);
    match serialize(&zone4, &zone6) {
        Some(blob) => Ok(CompiledDb { blob, provinces, cities }),
        None => Err(CompileError::DatabaseTooLarge),
    }
}

/// Source rows that arrive sorted ascending by start and mutually
/// non-overlapping, with no inverted ranges.
pub open spec fn spec_rows_ordered(recs: Seq<SpecRecord>) -> bool {
    &&& forall|i: int| 0 <= i < recs.len() ==> (#[trigger] recs[i]).start <= recs[i].end
    &&& forall|i: int, j: int| #![trigger recs[i], recs[j]] 0 <= i < j < recs.len() ==> recs[i].end
        < recs[j].start
}

/// Every zone of the 4-byte family compiled from rows that arrive sorted and
/// non-overlapping is itself strictly ordered with no overlap: each record
/// ends strictly before the next one starts.
pub proof fn lemma_compiled_zone_wf_v4(
    recs: Seq<SpecRecord>,
    pnames: Seq<Seq<u8>>,
    cnames: Seq<Seq<u8>>,
)
    requires
        spec_rows_ordered(recs),
        forall|i: int|
            0 <= i < recs.len() ==> (#[trigger] recs[i]).start <= u32::MAX && recs[i].end
                <= u32::MAX,
    ensures
        crate::db::v4_zone_wf(spec_resolve_v4(recs, pnames, cnames)),
{
    let zone = spec_resolve_v4(recs, pnames, cnames);
    assert(forall|i: int|
        0 <= i < zone.len() ==> (#[trigger] zone[i]).start == recs[i].start && zone[i].end
            == recs[i].end);
}

/// Every zone of the 16-byte family compiled from rows that arrive sorted
/// and non-overlapping is itself strictly ordered with no overlap.
pub proof fn lemma_compiled_zone_wf_v6(
    recs: Seq<SpecRecord>,
    pnames: Seq<Seq<u8>>,
    cnames: Seq<Seq<u8>>,
)
    requires
        spec_rows_ordered(recs),
    ensures
        crate::db::v6_zone_wf(spec_resolve_v6(recs, pnames, cnames)),
{
    let zone = spec_resolve_v6(recs, pnames, cnames);
    assert(forall|i: int|
        0 <= i < zone.len() ==> (#[trigger] zone[i]).start == recs[i].start && zone[i].end
            == recs[i].end);
}

} // verus!
