//! Reading the stream: what a run of bits says, given what the codec
//! carries over from the samples before it.
//!
//! Every function here reads at a position of a stream of bits and gives
//! what it read together with the position behind it, or says why nothing
//! can be read there.

use vstd::prelude::*;
use crate::Measurement;
use crate::codec::CodecState;
use crate::codec::layout::{delta_sum, leading, significant};
use crate::utils::bits::{be_word, bytes_of, overlay, pack8, zeros};
use crate::utils::varint::{groups_value, unzigzag};

verus! {

/// Why a sample cannot be read.
pub enum Fault {
    /// The stream ends before the sample does, or a value claims bits beyond its 64.
    OutOfBounds,
    /// Ten bytes in a row ask for another byte of a varint.
    Unterminated,
    /// A sample after the first is to be read with no sample before it on record.
    NoPrevious,
    /// A value refers to the envelope before it, and there is none.
    NoEnvelope,
}

/// The `n` bits of `stream` from `off` on, put at position `at` of a run of
/// `width` zero bits.
pub open spec fn placed(stream: Seq<bool>, off: nat, n: nat, at: nat, width: nat) -> Seq<bool> {
    overlay(zeros(width), at as int, stream, off as int, n as int)
}

/// The bit at `off`.
pub open spec fn read_flag(stream: Seq<bool>, off: nat) -> Result<(bool, nat), Fault> {
    if off < stream.len() {
        Ok((stream[off as int], off + 1))
    } else {
        Err(Fault::OutOfBounds)
    }
}

/// The byte that the eight bits from `off` on spell.
pub open spec fn byte_at(stream: Seq<bool>, off: nat) -> u8 {
    pack8(stream.subrange(off as int, off + 8 as int))
}

/// The bytes of the varint that starts at `off`, of which the bytes `seen`
/// have been read and all ask for more. A varint ends with the first byte
/// whose high bit is clear, and has ten bytes at most.
pub open spec fn varint_at(stream: Seq<bool>, off: nat, seen: Seq<u8>) -> Result<Seq<u8>, Fault>
    decreases 10 - seen.len(),
{
    if seen.len() >= 10 {
        Err(Fault::Unterminated)
    } else if off + 8 * seen.len() + 8 > stream.len() {
        Err(Fault::OutOfBounds)
    } else {
        let b = byte_at(stream, off + 8 * seen.len());
        if b < 128 {
            Ok(seen.push(b))
        } else {
            varint_at(stream, off, seen.push(b))
        }
    }
}

/// The varint at `off`: the value that its 7-bit groups spell, least
/// significant group first, cut to 64 bits.
pub open spec fn read_varint(stream: Seq<bool>, off: nat) -> Result<(u64, nat), Fault> {
    match varint_at(stream, off, Seq::empty()) {
        Ok(bytes) => Ok(
            ((groups_value(bytes) % 0x1_0000_0000_0000_0000) as u64, off + 8 * bytes.len()),
        ),
        Err(f) => Err(f),
    }
}

/// The signed delta at `off`: a varint, unfolded from zigzag.
pub open spec fn read_delta(stream: Seq<bool>, off: nat) -> Result<(i64, nat), Fault> {
    match read_varint(stream, off) {
        Ok((v, next)) => Ok((unzigzag(v), next)),
        Err(f) => Err(f),
    }
}

/// The delta at `off` that is only there when the bit before it says so.
pub open spec fn read_optional_delta(stream: Seq<bool>, off: nat) -> Result<
    (Option<i64>, nat),
    Fault,
> {
    match read_flag(stream, off) {
        Err(f) => Err(f),
        Ok((false, next)) => Ok((None, next)),
        Ok((true, next)) => match read_delta(stream, next) {
            Ok((d, end)) => Ok((Some(d), end)),
            Err(f) => Err(f),
        },
    }
}

/// The number that the six bits from `off` on spell.
#[verifier::opaque]
pub open spec fn read_six(stream: Seq<bool>, off: nat) -> Result<(u8, nat), Fault> {
    if off + 6 > stream.len() {
        Err(Fault::OutOfBounds)
    } else {
        Ok((pack8(placed(stream, off, 6, 2, 8)), off + 6))
    }
}

/// The 64-bit word whose bits `at .. at + n` are the `n` bits from `off` on,
/// and whose other bits are zero. A run of no bits is in bounds wherever it lies.
#[verifier::opaque]
pub open spec fn read_run(stream: Seq<bool>, off: nat, at: nat, n: nat) -> Result<
    (u64, nat),
    Fault,
> {
    if n > 0 && (at + n > 64 || off + n > stream.len()) {
        Err(Fault::OutOfBounds)
    } else {
        Ok((be_word(bytes_of(placed(stream, off, n, at, 64))), off + n))
    }
}

/// The bits of a value at `off`, given the bits `prev` of the value before
/// and the envelope `env`; with them, the envelope after the value.
///
/// An envelope of the word zero spans no bit of a word: a value that refers
/// to it is out of bounds.
pub open spec fn read_value(stream: Seq<bool>, off: nat, env: Option<u64>, prev: u64) -> Result<
    ((u64, Option<u64>), nat),
    Fault,
> {
    match read_flag(stream, off) {
        Err(f) => Err(f),
        Ok((false, next)) => Ok(((prev, env), next)),
        Ok((true, next)) => match read_flag(stream, next) {
            Err(f) => Err(f),
            Ok((false, start)) => match env {
                None => Err(Fault::NoEnvelope),
                Some(p) => if p == 0 {
                    Err(Fault::OutOfBounds)
                } else {
                    match read_run(stream, start, leading(p), significant(p) as nat) {
                        Ok((xor, end)) => Ok(((prev ^ xor, env), end)),
                        Err(f) => Err(f),
                    }
                },
            },
            Ok((true, start)) => match read_six(stream, start) {
                Err(f) => Err(f),
                Ok((lz, at_width)) => match read_six(stream, at_width) {
                    Err(f) => Err(f),
                    Ok((sig, at_run)) => match read_run(stream, at_run, lz as nat, sig as nat) {
                        Ok((xor, end)) => Ok(((prev ^ xor, Some(xor)), end)),
                        Err(f) => Err(f),
                    },
                },
            },
        },
    }
}

/// The first sample of a stream.
pub open spec fn read_first(stream: Seq<bool>, s: CodecState) -> Result<
    (Measurement, CodecState),
    Fault,
> {
    match read_varint(stream, s.bit_offset) {
        Err(f) => Err(f),
        Ok((timestamp, at_count)) => match read_varint(stream, at_count) {
            Err(f) => Err(f),
            Ok((count, at_value)) => match read_run(stream, at_value, 0, 64) {
                Err(f) => Err(f),
                Ok((value_bits, end)) => {
                    let m = Measurement { timestamp, count, value_bits };
                    Ok(
                        (
                            m,
                            CodecState {
                                idx: s.idx + 1,
                                bit_offset: end,
                                last_timestamp_delta: 0,
                                last_measurement: Some(m),
                                last_xor: s.last_xor,
                            },
                        ),
                    )
                },
            },
        },
    }
}

/// The timestamp delta of a later sample: the second sample always carries
/// one; from the third on the delta before stands where none is written.
pub open spec fn read_timestamp_delta(stream: Seq<bool>, s: CodecState) -> Result<
    (i64, nat),
    Fault,
> {
    if s.idx == 1 {
        read_delta(stream, s.bit_offset)
    } else {
        match read_optional_delta(stream, s.bit_offset) {
            Err(f) => Err(f),
            Ok((None, next)) => Ok((s.last_timestamp_delta, next)),
            Ok((Some(d), next)) => Ok((d, next)),
        }
    }
}

/// A later sample, read relative to the sample `prev` before it.
pub open spec fn read_next(stream: Seq<bool>, s: CodecState, prev: Measurement) -> Result<
    (Measurement, CodecState),
    Fault,
> {
    match read_timestamp_delta(stream, s) {
        Err(f) => Err(f),
        Ok((td, at_count)) => match read_optional_delta(stream, at_count) {
            Err(f) => Err(f),
            Ok((cd, at_value)) => match read_value(stream, at_value, s.last_xor, prev.value_bits) {
                Err(f) => Err(f),
                Ok(((value_bits, env), end)) => {
                    let m = Measurement {
                        timestamp: delta_sum(prev.timestamp, td),
                        count: match cd {
                            Some(d) => delta_sum(prev.count, d),
                            None => prev.count,
                        },
                        value_bits,
                    };
                    Ok(
                        (
                            m,
                            CodecState {
                                idx: s.idx + 1,
                                bit_offset: end,
                                last_timestamp_delta: td,
                                last_measurement: Some(m),
                                last_xor: env,
                            },
                        ),
                    )
                },
            },
        },
    }
}

/// The sample at the position of state `s`, and the state after it.
#[verifier::opaque]
pub open spec fn read_sample(stream: Seq<bool>, s: CodecState) -> Result<
    (Measurement, CodecState),
    Fault,
> {
    if s.idx == 0 {
        read_first(stream, s)
    } else {
        match s.last_measurement {
            None => Err(Fault::NoPrevious),
            Some(prev) => read_next(stream, s, prev),
        }
    }
}

} // verus!
