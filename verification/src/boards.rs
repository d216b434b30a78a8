//! The two serial bus protocols and the board records the enumeration
//! commands report.

use vstd::prelude::*;

verus! {

/// The two FAST serial bus protocols. No other protocol is representable.
#[derive(Debug, Clone, Copy, PartialEq, Eq, Hash, Structural)]
pub enum Protocol {
    NET,
    EXP,
}

/// One board found on the EXP expansion bus.
#[derive(Debug, Clone, PartialEq, Eq)]
pub struct ExpBoardInfo {
    /// Bus address, as the two-digit hex text of the address table.
    pub address: String,
    /// Name the board reported, or the table's board type when none came.
    pub board_name: String,
    /// Firmware version the board reported.
    pub version: String,
    /// Catalog versions available for this board, sorted as text.
    pub available_versions: Option<Vec<String>>,
}

/// One node found on the NET controller bus.
#[derive(Debug, Clone, PartialEq, Eq)]
pub struct NetBoardInfo {
    /// Node id field of the reply.
    pub node_id: String,
    /// Node name field of the reply.
    pub node_name: String,
    /// Firmware version field of the reply.
    pub firmware: String,
    /// All additional fields returned after the firmware version, in order.
    pub extra_fields: Vec<String>,
}

} // verus!
