//! The location identifier codec.
//!
//! A `Location` packs a country index, a province index and a city index into
//! one 64-bit value: `country << 56 | province << 32 | city`. The maximum
//! 16-bit value is the province sentinel and the maximum 32-bit value is the
//! city sentinel; a field holding its sentinel means the component is absent.

use vstd::prelude::*;

use crate::dict::Dictionary;

verus! {

/// The province sentinel: a province field equal to this value means "absent".
pub const PROVINCE_SENTINEL: u16 = 0xFFFF;

/// The city sentinel: a city field equal to this value means "absent".
pub const CITY_SENTINEL: u32 = 0xFFFF_FFFF;

/// A country of the fixed external country table, carried by its index.
#[derive(Debug, PartialEq, Eq, Structural, Clone, Copy)]
pub struct Country(u8);

/// A province, carried by its index into the province dictionary.
#[derive(Debug, PartialEq, Eq, Structural, Clone, Copy)]
pub struct Province(u16);

/// A city, carried by its index into the city dictionary.
#[derive(Debug, PartialEq, Eq, Structural, Clone, Copy)]
pub struct City(u32);

/// The packed 64-bit location identifier.
#[derive(Debug, PartialEq, Eq, Structural, Clone, Copy)]
pub struct Location(u64);

/// The packed identifier composed from the three component indices.
pub open spec fn spec_encode(country: u8, province: u16, city: u32) -> u64 {
    (country as u64) << 56 | (province as u64) << 32 | (city as u64)
}

/// The country field of a packed identifier.
pub open spec fn spec_country_field(id: u64) -> u8 {
    (id >> 56) as u8
}

/// The province field of a packed identifier.
pub open spec fn spec_province_field(id: u64) -> u16 {
    ((id >> 32) & 0xFFFF) as u16
}

/// The city field of a packed identifier.
pub open spec fn spec_city_field(id: u64) -> u32 {
    (id & 0xFFFF_FFFF) as u32
}

impl Country {
    /// Wraps a numeric index of the external country table.
    pub fn from_index(index: u8) -> (r: Country)
        ensures
            r.index_spec() == index,
    {
        Country(index)
    }

    /// The numeric index of this country in the external country table.
    pub fn index(&self) -> (r: u8)
        ensures
            r == self.index_spec(),
    {
        self.0
    }

    /// The numeric index, for use in contracts.
    pub closed spec fn index_spec(self) -> u8 {
        self.0
    }
}

impl Province {
    /// The index of this province in the province dictionary.
    pub fn index(&self) -> (r: u16)
        ensures
            r == self.index_spec(),
    {
        self.0
    }

    /// The index, for use in contracts.
    pub closed spec fn index_spec(self) -> u16 {
        self.0
    }

    /// The name of this province in the dictionary of its own compilation
    /// generation; `None` exactly when the index is out of range.
    pub fn name<'a>(&self, provinces: &'a Dictionary) -> (r: Option<&'a Vec<u8>>)
        ensures
            match r {
                Some(n) => self.index_spec() < provinces.names().len() && n@
                    == provinces.names()[self.index_spec() as int],
                None => self.index_spec() >= provinces.names().len(),
            },
    {
        provinces.index_to_name(self.0 as usize)
    }
}

impl City {
    /// The index of this city in the city dictionary.
    pub fn index(&self) -> (r: u32)
        ensures
            r == self.index_spec(),
    {
        self.0
    }

    /// The index, for use in contracts.
    pub closed spec fn index_spec(self) -> u32 {
        self.0
    }

    /// The name of this city in the dictionary of its own compilation
    /// generation; `None` exactly when the index is out of range.
    pub fn name<'a>(&self, cities: &'a Dictionary) -> (r: Option<&'a Vec<u8>>)
        ensures
            match r {
                Some(n) => self.index_spec() < cities.names().len() && n@
                    == cities.names()[self.index_spec() as int],
                None => self.index_spec() >= cities.names().len(),
            },
    {
        cities.index_to_name(self.0 as usize)
    }
}

impl Location {
    /// Packs the three component indices into one identifier.
    pub fn new(country_index: u8, province_index: u16, city_index: u32) -> (r: Location)
        ensures
            r.id() == spec_encode(country_index, province_index, city_index),
    {
        let id = (country_index as u64) << 56 | (province_index as u64) << 32 | (city_index
            as u64);
        Location(id)
    }

    /// Wraps an already-packed identifier read from the database.
    pub fn from_id(id: u64) -> (r: Location)
        ensures
            r.id() == id,
    {
        Location(id)
    }

    /// The packed 64-bit value, for use in contracts.
    pub closed spec fn id(self) -> u64 {
        self.0
    }

    /// The packed 64-bit value, for storing into a database record.
    pub(crate) fn to_id(&self) -> (r: u64)
        ensures
            r == self.id(),
    {
        self.0
    }

    /// The country component; every identifier carries one.
    pub fn country(&self) -> (r: Country)
        ensures
            r.index_spec() == spec_country_field(self.id()),
    {
        Country((self.0 >> 56) as u8)
    }

    /// The province component; absent exactly when the province field holds
    /// its sentinel maximum value.
    pub fn province(&self) -> (r: Option<Province>)
        ensures
            r is None <==> spec_province_field(self.id()) == PROVINCE_SENTINEL,
            r matches Some(p) ==> p.index_spec() == spec_province_field(self.id()),
    {
        let id = ((self.0 >> 32) & 0xFFFF) as u16;
        if id == PROVINCE_SENTINEL {
            None
        } else {
            Some(Province(id))
        }
    }

    /// The city component; absent exactly when the city field holds its
    /// sentinel maximum value.
    pub fn city(&self) -> (r: Option<City>)
        ensures
            r is None <==> spec_city_field(self.id()) == CITY_SENTINEL,
            r matches Some(c) ==> c.index_spec() == spec_city_field(self.id()),
    {
        let id = (self.0 & 0xFFFF_FFFF) as u32;
        if id == CITY_SENTINEL {
            None
        } else {
            Some(City(id))
        }
    }
}

/// Decoding a packed identifier recovers exactly the three components that
/// were encoded: the codec is lossless for every index triple.
pub proof fn lemma_codec_round_trip(country: u8, province: u16, city: u32)
    by (bit_vector)
    ensures
        spec_country_field(spec_encode(country, province, city)) == country,
        spec_province_field(spec_encode(country, province, city)) == province,
        spec_city_field(spec_encode(country, province, city)) == city,
{
}

} // verus!
