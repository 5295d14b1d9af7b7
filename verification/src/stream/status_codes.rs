//! Status codes a porter writes in response to requests.

use vstd::prelude::*;

verus! {

pub const BEGIN: u8 = 0x00;

pub const SUCCESS: u8 = 0x41;

pub const FAILURE: u8 = 0x46;

pub const OB_DELETION_SCHEDULED_ERR: u8 = 0x50;

pub const OB_META_TOO_LARGE_ERR: u8 = 0x51;

pub const OB_DATA_TOO_LARGE_ERR: u8 = 0x52;

pub const OB_NOT_FOUND_ERR: u8 = 0x53;

pub const PLASMA_STORE_ERR: u8 = 0x54;

/// The reason given for an error status code that a peer answered with; none for a code that is
/// not one of the object error codes.
pub open spec fn error_reason(code: u8) -> Option<Seq<char>> {
    if code == OB_DELETION_SCHEDULED_ERR {
        Some("deletion in progress"@)
    } else if code == OB_META_TOO_LARGE_ERR {
        Some("object meta too large"@)
    } else if code == OB_DATA_TOO_LARGE_ERR {
        Some("object data too large"@)
    } else if code == OB_NOT_FOUND_ERR {
        Some("not found"@)
    } else if code == PLASMA_STORE_ERR {
        Some("peer plasma store error"@)
    } else {
        None
    }
}

/// Describes the error status code that a peer answered with; `None` when the code is not one
/// of the object error codes.
pub fn peer_error_reason(code: u8) -> (r: Option<&'static str>)
    ensures
        match r {
            Some(s) => error_reason(code) == Some(s@),
            None => error_reason(code) is None,
        },
{
    if code == OB_DELETION_SCHEDULED_ERR {
        Some("deletion in progress")
    } else if code == OB_META_TOO_LARGE_ERR {
        Some("object meta too large")
    } else if code == OB_DATA_TOO_LARGE_ERR {
        Some("object data too large")
    } else if code == OB_NOT_FOUND_ERR {
        Some("not found")
    } else if code == PLASMA_STORE_ERR {
        Some("peer plasma store error")
    } else {
        None
    }
}

} // verus!
