//! Readers for named-binary-tag documents, region files and the packed block
//! data of chunk sections.

pub mod coerce;
pub mod compress;
pub mod error;
pub mod files;
pub mod nbt;
pub mod region;
pub mod section;
pub mod strings;
pub mod tag;
