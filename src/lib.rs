//! Traffic-sensor count analysis: parsing of `YYYY-MM-DDTHH:MM:SS <count>` records and
//! the aggregate reports computed over a collection of them.

pub mod text;
pub mod timestamp;
pub mod collection;
