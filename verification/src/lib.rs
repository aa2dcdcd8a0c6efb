//! Streaming compression of time-series measurements: a delta / XOR codec
//! that packs `(timestamp, count, value)` samples into a dense bit stream.

use vstd::prelude::*;

pub mod codec;
pub mod utils;

verus! {

/// One sample of a time series.
///
/// `value_bits` is the IEEE-754 bit pattern of the sample's double. The codec
/// never interprets it as a number: it only XORs and copies the 64 bits.
#[derive(Copy, Clone, Debug, PartialEq, Eq, Structural)]
pub struct Measurement {
    pub timestamp: u64,
    pub count: u64,
    pub value_bits: u64,
}

} // verus!
