//! Board enumeration over the two buses: the exact command text each probe
//! sends, the rule that stops a NET node scan, and what one probe reply
//! contributes to the board list. The probe loop itself, being serial I/O
//! with politeness delays, lives outside the library.

use vstd::prelude::*;
use crate::boards::ExpBoardInfo;
use crate::catalog::{versions_list_ok, Catalog};
use crate::parse::id_triple;
use crate::strutil::{contains_sub, str_contains};
use crate::version::{min2_str, two_digit};

verus! {

/// The identity probe for one EXP bus address: `"ID@{address}:\r"`.
pub fn exp_id_command(address: &str) -> (r: String)
    ensures
        r@ == ("ID@")@ + address@ + (":\r")@,
{
    let mut out = String::from_str("ID@");
    out.append(address);
    out.append(":\r");
    out
}

/// The address-select command for a flash target: `"ea:{address}\r"`.
pub fn ea_command(address: &str) -> (r: String)
    ensures
        r@ == ("ea:")@ + address@ + ("\r")@,
{
    let mut out = String::from_str("ea:");
    out.append(address);
    out.append("\r");
    out
}

/// The identity probe for the NET controller: `"ID:\r"`.
pub fn net_id_command() -> (r: String)
    ensures
        r@ == ("ID:\r")@,
{
    String::from_str("ID:\r")
}

/// The enumeration probe for NET node `index`: `"NN:{index:02}\r"`.
pub fn net_node_command(index: u32) -> (r: String)
    ensures
        r@ == ("NN:")@ + min2_str(index as int) + ("\r")@,
{
    let mut out = String::from_str("NN:");
    out.append(two_digit(index).as_str());
    out.append("\r");
    out
}

/// The fire-and-forget broadcast that tells subordinate I/O boards to take
/// the freshly flashed update: `"bn:aa55\r"`.
pub fn broadcast_command() -> (r: String)
    ensures
        r@ == ("bn:aa55\r")@,
{
    String::from_str("bn:aa55\r")
}

/// Whether a NET node scan stops at this reply: nothing came back, or the
/// device said the node does not exist.
pub fn net_scan_stop(resp: &str) -> (r: bool)
    ensures
        r == (resp@.len() == 0 || contains_sub(resp@, ("!Node Not Found!")@)),
{
    resp.is_empty() || str_contains(resp, "!Node Not Found!")
}

/// What `available_versions` must hold for a board that reported protocol
/// `proto`: the catalog is consulted first under the reported board name,
/// then under the address table's board type, and yields nothing when
/// neither key is present.
pub open spec fn versions_for_board_ok(
    model: Map<Seq<char>, Map<Seq<char>, Seq<char>>>,
    key: Seq<char>,
    fallback_key: Seq<char>,
    av: Option<Vec<String>>,
) -> bool {
    if model.contains_key(key) {
        av matches Some(v) && versions_list_ok(model[key], v@)
    } else if model.contains_key(fallback_key) {
        av matches Some(v) && versions_list_ok(model[fallback_key], v@)
    } else {
        av is None
    }
}

/// What one EXP probe reply contributes to the board list: nothing when the
/// reply holds no identity triple, else a record of the board under the
/// probed address, with its catalog versions resolved by board name first
/// and table board type second.
pub fn exp_board_from_reply(
    catalog: &Catalog,
    address: &str,
    board_type: &str,
    reply: &str,
) -> (r: Option<ExpBoardInfo>)
    requires
        catalog.wf(),
    ensures
        match r {
            Some(b) => id_triple(reply@) matches Some(t) && {
                &&& b.address@ == address@
                &&& b.board_name@ == (if t.1.len() == 0 {
                    board_type@
                } else {
                    t.1
                })
                &&& b.version@ == t.2
                &&& versions_for_board_ok(
                    catalog.model(),
                    b.board_name@ + seq!['_'] + t.0,
                    board_type@ + seq!['_'] + t.0,
                    b.available_versions,
                )
            },
            None => id_triple(reply@) is None,
        },
{
    match crate::parse::parse_id_response(reply) {
        Some((proto, board, version)) => {
            let board_name = if board.as_str().is_empty() {
                board_type.to_owned()
            } else {
                board
            };
            let mut key = board_name.clone();
            key.append("_");
            key.append(proto.as_str());
            let mut fallback_key = board_type.to_owned();
            fallback_key.append("_");
            fallback_key.append(proto.as_str());
            proof {
                reveal_strlit("_");
                assert(("_")@ =~= seq!['_']);
            }
            let available_versions = match catalog.available_versions(key.as_str()) {
                Some(v) => Some(v),
                None => catalog.available_versions(fallback_key.as_str()),
            };
            Some(
                ExpBoardInfo {
                    address: address.to_owned(),
                    board_name,
                    version,
                    available_versions,
                },
            )
        },
        None => None,
    }
}

} // verus!
