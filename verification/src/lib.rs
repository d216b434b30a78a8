//! Identification and firmware-flashing logic for FAST pinball control-system
//! boards reachable over two serial buses (the NET controller bus and the EXP
//! expansion bus).
//!
//! The crate holds the pure core: response parsing, version normalization,
//! the firmware catalog, port classification, and the flash-and-verify state
//! machine. All serial, file and network traffic is driven by a thin
//! unverified shell that feeds plain values into these functions.

pub mod addresses;
pub mod boards;
pub mod catalog;
pub mod discovery;
pub mod enumerate;
pub mod flash;
pub mod parse;
pub mod strutil;
pub mod version;
