//! Wire codes of the mux frame kinds.
//!
//! A code is a one-byte two's complement integer: positive codes are
//! T-messages and their negations the matching R-messages. Codes above 63,
//! and their negations, are session control messages; the others carry
//! application requests.
use vstd::prelude::*;

verus! {

pub const TREQ: i8 = 1;

pub const RREQ: i8 = -1;

pub const TDISPATCH: i8 = 2;

pub const RDISPATCH: i8 = -2;

pub const TINIT: i8 = 68;

pub const RINIT: i8 = -68;

pub const TDRAIN: i8 = 64;

pub const RDRAIN: i8 = -64;

pub const TPING: i8 = 65;

pub const RPING: i8 = -65;

pub const TDISCARDED: i8 = 66;

pub const TLEASE: i8 = 67;

pub const RERR: i8 = -128;

/// Whether `code` is the code of one of the thirteen frame kinds.
pub open spec fn is_frame_code(code: i8) -> bool {
    code == TREQ || code == RREQ || code == TDISPATCH || code == RDISPATCH || code == TINIT
        || code == RINIT || code == TDRAIN || code == RDRAIN || code == TPING || code == RPING
        || code == TDISCARDED || code == TLEASE || code == RERR
}

} // verus!
