//! Hex/ASCII viewer for binary files: row formatting, chunked row grouping,
//! ELF header sniffing, raw hex import and single-row patching.

pub mod hex;
pub mod row;
pub mod reader;
pub mod dump;
pub mod error;
pub mod import;
pub mod sniff;
pub mod patch;
