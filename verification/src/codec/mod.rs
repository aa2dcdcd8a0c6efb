//! The streaming codec: what travels from one sample to the next, and the
//! encoder and decoder that share it.

use vstd::prelude::*;
use crate::Measurement;
use crate::utils::bits::{bit_at, bits_of, overlay};

pub mod decoder;
pub mod encoder;
pub mod laws;
pub mod layout;
pub mod parse;

verus! {

/// What the codec carries from one sample of a stream to the next.
pub struct CodecMetadata {
    idx: usize,
    buf_offbits: usize,
    last_timestamp_delta: i64,
    last_measurement: Option<Measurement>,
    value_xor: Option<u64>,
}

/// The mathematical content of a [`CodecMetadata`].
pub struct CodecState {
    /// Samples processed so far.
    pub idx: nat,
    /// Position of the next bit to write or read.
    pub bit_offset: nat,
    /// Difference between the timestamps of the last two samples.
    pub last_timestamp_delta: i64,
    /// The last sample, once there is one.
    pub last_measurement: Option<Measurement>,
    /// The XOR whose leading and trailing zeros bound the current envelope.
    pub last_xor: Option<u64>,
}

impl CodecState {
    /// The state before the first sample.
    pub open spec fn fresh() -> CodecState {
        CodecState {
            idx: 0,
            bit_offset: 0,
            last_timestamp_delta: 0,
            last_measurement: None,
            last_xor: None,
        }
    }
}

/// The bits of a buffer that a bit offset can reach. Offsets are `usize`, so
/// of a buffer with more bits than that only the first `usize::MAX` count.
pub open spec fn stream_of(buf: Seq<u8>) -> Seq<bool> {
    if 8 * buf.len() <= usize::MAX {
        bits_of(buf)
    } else {
        bits_of(buf).take(usize::MAX as int)
    }
}

/// Whether `after` has the length of `before` and the same bits before position `off`.
pub open spec fn prefix_kept(before: Seq<u8>, after: Seq<u8>, off: nat) -> bool {
    &&& after.len() == before.len()
    &&& forall|i: int|
        0 <= i < off && i < 8 * before.len() ==> bit_at(after, i) == bit_at(before, i)
}

/// Whether `after` is `before` with the bits `run` put at position `off`,
/// and every other bit as it was.
pub open spec fn written(before: Seq<u8>, after: Seq<u8>, off: nat, run: Seq<bool>) -> bool {
    bits_of(after) == overlay(bits_of(before), off as int, run, 0, run.len() as int)
}

/// Writing one run and then another behind it writes the two as one run.
pub proof fn lemma_written_twice(
    a: Seq<u8>,
    b: Seq<u8>,
    c: Seq<u8>,
    off: nat,
    first: Seq<bool>,
    second: Seq<bool>,
)
    requires
        written(a, b, off, first),
        written(b, c, off + first.len(), second),
    ensures
        written(a, c, off, first + second),
{
    let whole = first + second;
    let want = overlay(bits_of(a), off as int, whole, 0, whole.len() as int);
    assert(bits_of(a).len() == bits_of(b).len());
    assert(bits_of(b).len() == bits_of(c).len());
    assert forall|i: int| 0 <= i < want.len() implies bits_of(c)[i] == want[i] by {
        assert(bits_of(b)[i] == overlay(bits_of(a), off as int, first, 0, first.len() as int)[i]);
    }
    assert(bits_of(c) =~= want);
}

/// A write keeps every bit before its position.
pub proof fn lemma_written_keeps_prefix(a: Seq<u8>, b: Seq<u8>, off: nat, run: Seq<bool>)
    requires
        written(a, b, off, run),
    ensures
        prefix_kept(a, b, off),
{
    assert(bits_of(a).len() == bits_of(b).len());
    assert forall|i: int| 0 <= i < off && i < 8 * a.len() implies bit_at(b, i) == bit_at(a, i) by {
        assert(bits_of(b)[i] == bits_of(a)[i]);
    }
}

/// What is kept up to a later position is kept up to an earlier one, step after step.
pub proof fn lemma_prefix_kept_twice(a: Seq<u8>, b: Seq<u8>, c: Seq<u8>, off: nat, later: nat)
    requires
        prefix_kept(a, b, off),
        prefix_kept(b, c, later),
        off <= later,
    ensures
        prefix_kept(a, c, off),
{
}

impl View for CodecMetadata {
    type V = CodecState;

    closed spec fn view(&self) -> CodecState {
        CodecState {
            idx: self.idx as nat,
            bit_offset: self.buf_offbits as nat,
            last_timestamp_delta: self.last_timestamp_delta,
            last_measurement: self.last_measurement,
            last_xor: self.value_xor,
        }
    }
}

impl CodecMetadata {
    /// Every sample takes at least one bit, so the samples never outnumber the bits.
    #[verifier::type_invariant]
    spec fn samples_within_bits(&self) -> bool {
        self.idx <= self.buf_offbits
    }

    /// The state of a stream of which nothing has been written or read.
    pub fn new() -> (r: CodecMetadata)
        ensures
            r@ == CodecState::fresh(),
    {
        CodecMetadata {
            idx: 0,
            buf_offbits: 0,
            last_timestamp_delta: 0,
            last_measurement: None,
            value_xor: None,
        }
    }

    /// The number of bytes that hold the bits written or read so far, the
    /// last byte counted whole.
    pub fn byte_len(self: &CodecMetadata) -> (r: usize)
        ensures
            r == (self@.bit_offset + 7) / 8,
    {
        return self.buf_offbits / 8 + (if self.buf_offbits % 8 == 0 {
            0
        } else {
            1
        });
    }

    /// The position of the next bit.
    pub fn bit_offset(&self) -> (r: usize)
        ensures
            r == self@.bit_offset,
            self@.idx <= self@.bit_offset,
    {
        proof {
            use_type_invariant(self);
        }
        self.buf_offbits
    }

    /// The number of samples processed so far.
    pub fn samples(&self) -> (r: usize)
        ensures
            r == self@.idx,
            self@.idx <= self@.bit_offset,
    {
        proof {
            use_type_invariant(self);
        }
        self.idx
    }

    /// The sample before the next one, if there is one.
    pub fn last_measurement(&self) -> (r: Option<Measurement>)
        ensures
            r == self@.last_measurement,
    {
        self.last_measurement
    }

    pub(crate) fn last_timestamp_delta(&self) -> (r: i64)
        ensures
            r == self@.last_timestamp_delta,
    {
        self.last_timestamp_delta
    }

    pub(crate) fn last_xor(&self) -> (r: Option<u64>)
        ensures
            r == self@.last_xor,
    {
        self.value_xor
    }

    /// Moves the bit position forward to `off`.
    pub(crate) fn advance_to(&mut self, off: usize)
        requires
            old(self)@.bit_offset <= off,
        ensures
            final(self)@ == (CodecState { bit_offset: off as nat, ..old(self)@ }),
    {
        proof {
            use_type_invariant(&*self);
        }
        self.buf_offbits = off;
    }

    pub(crate) fn set_last_timestamp_delta(&mut self, delta: i64)
        ensures
            final(self)@ == (CodecState { last_timestamp_delta: delta, ..old(self)@ }),
    {
        proof {
            use_type_invariant(&*self);
        }
        self.last_timestamp_delta = delta;
    }

    pub(crate) fn set_last_xor(&mut self, xor: u64)
        ensures
            final(self)@ == (CodecState { last_xor: Some(xor), ..old(self)@ }),
    {
        proof {
            use_type_invariant(&*self);
        }
        self.value_xor = Some(xor);
    }

    /// Closes a sample: `measurement` becomes the last one and the count goes up.
    pub(crate) fn finish_sample(&mut self, measurement: Measurement)
        requires
            old(self)@.idx < old(self)@.bit_offset,
        ensures
            final(self)@ == (CodecState {
                idx: old(self)@.idx + 1,
                last_measurement: Some(measurement),
                ..old(self)@
            }),
    {
        proof {
            use_type_invariant(&*self);
        }
        self.last_measurement = Some(measurement);
        self.idx += 1;
    }
}

} // verus!
