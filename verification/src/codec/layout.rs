//! The layout of the stream: which bits stand for a sample, given what the
//! codec carries over from the samples before it.
//!
//! The first sample is written whole. Every later sample is written as three
//! records, each relative to the sample before it: the timestamp, the count
//! and the value.

use vstd::prelude::*;
use vstd::std_specs::bits::{
    axiom_u64_leading_zeros, axiom_u64_trailing_zeros, u64_leading_zeros, u64_trailing_zeros,
};
use crate::Measurement;
use crate::codec::CodecState;
use crate::utils::bits::{be_bytes, bits_of, zeros};
use crate::utils::varint::{lemma_varint_len, varint_bytes, zigzag};

verus! {

/// The difference `cur - prev` in two's complement: the one value of `i64`
/// that differs from `cur - prev` by a multiple of `2^64`.
pub open spec fn signed_delta(cur: u64, prev: u64) -> i64 {
    let d = cur - prev;
    if d > i64::MAX {
        (d - 0x1_0000_0000_0000_0000) as i64
    } else if d < i64::MIN {
        (d + 0x1_0000_0000_0000_0000) as i64
    } else {
        d as i64
    }
}

/// The sum `val + delta` in two's complement: the one value of `u64` that
/// differs from `val + delta` by a multiple of `2^64`.
pub open spec fn delta_sum(val: u64, delta: i64) -> u64 {
    let s = val + delta;
    if s > u64::MAX {
        (s - 0x1_0000_0000_0000_0000) as u64
    } else if s < 0 {
        (s + 0x1_0000_0000_0000_0000) as u64
    } else {
        s as u64
    }
}

/// The number of zero bits above the highest set bit of `x`; 64 for zero.
pub open spec fn leading(x: u64) -> nat {
    u64_leading_zeros(x) as nat
}

/// The number of zero bits below the lowest set bit of `x`; 64 for zero.
pub open spec fn trailing(x: u64) -> nat {
    u64_trailing_zeros(x) as nat
}

/// The number of bits of `x` from its highest set bit to its lowest. Zero
/// has no set bit, and the number is negative for it.
pub open spec fn significant(x: u64) -> int {
    64 - leading(x) - trailing(x)
}

/// Whether the set bits of `xor` lie inside the envelope that `env` spans,
/// so that `xor` can be written without a new envelope.
pub open spec fn within_envelope(env: Option<u64>, xor: u64) -> bool {
    match env {
        Some(p) => leading(xor) >= leading(p) && trailing(xor) >= trailing(p),
        None => false,
    }
}

/// An unsigned value as a varint, bit by bit.
pub open spec fn varint_record(v: u64) -> Seq<bool> {
    bits_of(varint_bytes(v as nat))
}

/// The six low bits of `v`, most significant first.
pub open spec fn six_bits(v: u8) -> Seq<bool> {
    bits_of(seq![v]).subrange(2, 8)
}

/// The `n` bits of `w` that start at bit `at`, counted from the most significant bit.
pub open spec fn word_run(w: u64, at: int, n: int) -> Seq<bool> {
    bits_of(be_bytes(w)).subrange(at, at + n)
}

/// The first sample of a stream: timestamp and count as varints, then the
/// 64 bits of the value.
pub open spec fn first_record(m: Measurement) -> Seq<bool> {
    varint_record(m.timestamp) + varint_record(m.count) + bits_of(be_bytes(m.value_bits))
}

/// A delta that is written only where it is needed: one bit that says
/// whether it follows, and then the delta, folded by zigzag, as a varint.
pub open spec fn optional_delta(present: bool, delta: i64) -> Seq<bool> {
    if present {
        seq![true] + varint_record(zigzag(delta))
    } else {
        seq![false]
    }
}

/// The timestamp of a later sample. The second sample carries its delta to
/// the first. From the third on the delta is written only where it differs
/// from the delta before.
pub open spec fn timestamp_record(s: CodecState, prev: Measurement, m: Measurement) -> Seq<bool> {
    let td = signed_delta(m.timestamp, prev.timestamp);
    if s.idx == 1 {
        varint_record(zigzag(td))
    } else {
        optional_delta(td != s.last_timestamp_delta, td)
    }
}

/// The count of a later sample: its delta to the count before, written only
/// where the counts differ.
pub open spec fn count_record(prev: Measurement, m: Measurement) -> Seq<bool> {
    let cd = signed_delta(m.count, prev.count);
    optional_delta(cd != 0, cd)
}

/// The value of a later sample, given as its XOR with the value before: one
/// bit that says whether the values differ; if they do, one bit that says
/// whether a new envelope follows, the envelope if so (leading zeros and
/// width, six bits each), and the bits of the XOR inside the envelope.
///
/// The width is written in six bits: the width 64 is written as 0.
pub open spec fn value_record(env: Option<u64>, xor: u64) -> Seq<bool> {
    if xor == 0 {
        seq![false]
    } else if within_envelope(env, xor) {
        seq![true, false] + word_run(xor, leading(env->0) as int, significant(env->0))
    } else {
        seq![true, true] + six_bits(leading(xor) as u8) + six_bits(significant(xor) as u8)
            + word_run(xor, leading(xor) as int, significant(xor))
    }
}

/// The envelope after a value has been written: a new one where the value wrote one.
pub open spec fn envelope_after(env: Option<u64>, xor: u64) -> Option<u64> {
    if xor == 0 || within_envelope(env, xor) {
        env
    } else {
        Some(xor)
    }
}

/// Whether a sample can follow on state `s`: every sample but the first needs the one before it.
pub open spec fn can_follow(s: CodecState) -> bool {
    s.idx == 0 || s.last_measurement is Some
}

/// The bits that stand for sample `m` after state `s`.
pub open spec fn sample_record(s: CodecState, m: Measurement) -> Seq<bool> {
    if s.idx == 0 {
        first_record(m)
    } else {
        let prev = s.last_measurement->0;
        timestamp_record(s, prev, m) + count_record(prev, m) + value_record(
            s.last_xor,
            prev.value_bits ^ m.value_bits,
        )
    }
}

/// The zero bits that fill the last byte of a stream that ends at position
/// `end`: none where the stream ends with a byte.
pub open spec fn padding(end: nat) -> Seq<bool> {
    zeros(((8 - end % 8) % 8) as nat)
}

/// What writing sample `m` after state `s` puts into the buffer: the record
/// of the sample, and zero bits up to the end of its last byte.
pub open spec fn sample_image(s: CodecState, m: Measurement) -> Seq<bool> {
    sample_record(s, m) + padding(s.bit_offset + sample_record(s, m).len())
}

/// The state after sample `m` has been written or read in state `s`.
pub open spec fn state_after(s: CodecState, m: Measurement) -> CodecState {
    CodecState {
        idx: s.idx + 1,
        bit_offset: s.bit_offset + sample_record(s, m).len(),
        last_timestamp_delta: if s.idx == 0 {
            0
        } else {
            signed_delta(m.timestamp, s.last_measurement->0.timestamp)
        },
        last_measurement: Some(m),
        last_xor: if s.idx == 0 {
            s.last_xor
        } else {
            envelope_after(s.last_xor, s.last_measurement->0.value_bits ^ m.value_bits)
        },
    }
}

/// A word that is not zero has its highest set bit at or above its lowest:
/// between one and 64 bits are significant.
pub proof fn lemma_envelope_bounds(x: u64)
    requires
        x != 0,
    ensures
        leading(x) <= 63,
        trailing(x) <= 63,
        1 <= significant(x) <= 64,
{
    axiom_u64_leading_zeros(x);
    axiom_u64_trailing_zeros(x);
    let lz = u64_leading_zeros(x);
    let tz = u64_trailing_zeros(x);
    let j = tz as u64;
    if 64 - lz <= j {
        assert((x >> j) & 1u64 == 0u64);
    }
}

/// Every sample takes at least one bit of the stream.
pub proof fn lemma_sample_record_not_empty(s: CodecState, m: Measurement)
    ensures
        sample_record(s, m).len() >= 1,
{
    lemma_varint_len(m.timestamp as nat);
    if s.idx != 0 {
        let prev = s.last_measurement->0;
        lemma_varint_len(zigzag(signed_delta(m.timestamp, prev.timestamp)) as nat);
    }
}

} // verus!
