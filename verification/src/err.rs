//! Result codes of the host-side interface, and the mapping from the
//! device's status byte to them.

use vstd::prelude::*;

verus! {

/// Operation went ok.
pub const CRING_EOK: i32 = 0;

/// Operation has already happened, so this call is invalid.
pub const CRING_EALREADY: i32 = -1;

/// Some parameter is invalid.
pub const CRING_EINVAL: i32 = -2;

/// The search yielded no valid result.
pub const CRING_ENOTPRESENT: i32 = -3;

/// There was an error interacting with the USB.
pub const CRING_EUSB: i32 = -4;

/// Unknown device error.
pub const CRING_EACC_UNKNOWN: i32 = -100;

/// Unsupported compression.
pub const CRING_EACC_UNSUP_COMP: i32 = -101;

/// Parse failure.
pub const CRING_EACC_PARSE: i32 = -102;

/// What a device status byte means to the host: 0 is success, 1 reports
/// an unsupported compression, 2 a parse failure, and any other byte an
/// unknown device error.
pub open spec fn spec_map_from_device_error(e: u8) -> i32 {
    if e == 0 {
        CRING_EOK
    } else if e == 1 {
        CRING_EACC_UNSUP_COMP
    } else if e == 2 {
        CRING_EACC_PARSE
    } else {
        CRING_EACC_UNKNOWN
    }
}

/// Maps a device status byte to the host result code.
pub fn cring_map_from_device_error(e: u8) -> (r: i32)
    ensures
        r == spec_map_from_device_error(e),
{
    match e {
        0 => CRING_EOK,
        1 => CRING_EACC_UNSUP_COMP,
        2 => CRING_EACC_PARSE,
        _ => CRING_EACC_UNKNOWN,
    }
}

} // verus!
