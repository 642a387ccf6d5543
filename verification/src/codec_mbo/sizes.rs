//! Message sizes on the wire, with the message header.

use vstd::prelude::*;

verus! {

pub const ORDER_ADD: u8 = 52;

pub const ORDER_CANCEL: u8 = 32;

pub const ORDER_EXECUTE: u8 = 56;

pub const BATCH_BOUNDARY: u8 = 16;

pub const INSTRUMENT_RESET: u8 = 28;

pub const END_OF_SESSION: u8 = 12;

pub const SNAPSHOT_BEGIN: u8 = 36;

pub const SNAPSHOT_ORDER: u8 = 44;

pub const SNAPSHOT_END: u8 = 20;

pub const INSTRUMENT_DEFINITION: u8 = 80;

pub const TRADE: u8 = 52;

} // verus!
