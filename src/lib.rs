//! Stable, sequential, prefixed names for network interfaces.
//!
//! The library holds the naming engine: hardware-address validation and
//! normalization, the name grammar of a link record, the reconciliation of
//! the live device list with the records found on disk, the allocation of
//! the next free name and the text of a record file.

pub mod cmdline;
pub mod config;
pub mod engine;
pub mod error;
pub mod ini_doc;
pub mod name;
pub mod roster;
pub mod text;
pub mod util;
