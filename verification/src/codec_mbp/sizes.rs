//! Message sizes on the wire, with the message header.

use vstd::prelude::*;

verus! {

pub const HEARTBEAT: usize = 16;

pub const INSTRUMENT_DEFINITION: usize = 80;

pub const TRADE: usize = 52;

pub const END_OF_SESSION: usize = 12;

pub const MANIFEST_SUMMARY: usize = 24;

pub const BATCH_BOUNDARY: usize = 16;

pub const INSTRUMENT_RESET: usize = 28;

pub const SNAPSHOT_BEGIN: usize = 40;

pub const SNAPSHOT_END: usize = 20;

pub const LEVEL_UPDATE: usize = 48;

pub const BOOK_CLEAR: usize = 36;

pub const SNAPSHOT_LEVEL: usize = 32;

} // verus!
