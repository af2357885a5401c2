//! SETTINGS parameter identifiers (RFC 9113 §6.5.2): the keys carried in a
//! SETTINGS frame's payload.

use vstd::prelude::*;

verus! {

pub const HEADER_TABLE_SIZE: u16 = 0x1;

pub const ENABLE_PUSH: u16 = 0x2;

pub const MAX_CONCURRENT_STREAMS: u16 = 0x3;

pub const INITIAL_WINDOW_SIZE: u16 = 0x4;

pub const MAX_FRAME_SIZE: u16 = 0x5;

pub const MAX_HEADER_LIST_SIZE: u16 = 0x6;

} // verus!
