//! An IP-to-location library: a bit-packed location identifier codec, sorted
//! name dictionaries, a compiler that turns raw delimited rows into a binary
//! range database, and a lookup engine that answers point queries against the
//! database with a range binary search.

pub mod compiler;
pub mod db;
pub mod dict;
pub mod location;
