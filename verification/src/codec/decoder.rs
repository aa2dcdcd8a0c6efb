//! Reading samples from a stream.

use vstd::prelude::*;
use vstd::std_specs::convert::FromSpecImpl;
use crate::Measurement;
use crate::codec::layout::{delta_sum, lemma_envelope_bounds, significant};
use crate::codec::parse;
use crate::codec::parse::{byte_at, placed, varint_at, Fault};
use crate::codec::{stream_of, CodecMetadata, CodecState};
use crate::utils::bitcopy;
use crate::utils::bitcopy::{BitCopyError, BitValue};
use crate::utils::bits::{
    be_word, bit_at, bits_of, byte_bit, lemma_bits_ext, lemma_bits_of_zero_one, lemma_byte_ext,
    lemma_bytes_of_bits, lemma_pack8_bit, overlay, pack8, zeros,
};
use crate::utils::varint;
use crate::utils::varint::{lemma_ends_at_unique, VarIntError};

verus! {

/// Why a sample could not be read.
#[derive(Debug)]
pub enum DecoderError {
    /// The stream or the state is not one that a sample can be read from; the text says why.
    Generic(String),
    /// The stream ended before the sample did.
    BitCopyError(BitCopyError),
    /// A run of bytes did not hold a varint. `decode` hands bytes to the
    /// varint reader only once the end of the varint is among them, so it
    /// never fails in this way.
    VarintError(VarIntError),
}

impl From<BitCopyError> for DecoderError {
    fn from(e: BitCopyError) -> (r: Self) {
        DecoderError::BitCopyError(e)
    }
}

impl FromSpecImpl<BitCopyError> for DecoderError {
    open spec fn obeys_from_spec() -> bool {
        true
    }

    open spec fn from_spec(e: BitCopyError) -> Self {
        DecoderError::BitCopyError(e)
    }
}

impl From<VarIntError> for DecoderError {
    fn from(e: VarIntError) -> (r: Self) {
        DecoderError::VarintError(e)
    }
}

impl FromSpecImpl<VarIntError> for DecoderError {
    open spec fn obeys_from_spec() -> bool {
        true
    }

    open spec fn from_spec(e: VarIntError) -> Self {
        DecoderError::VarintError(e)
    }
}

impl DecoderError {
    /// Whether this error is the one that stands for the fault `f`.
    pub open spec fn reports(self, f: Fault) -> bool {
        match f {
            Fault::OutOfBounds => self is BitCopyError,
            Fault::Unterminated => self matches DecoderError::Generic(text) && text@
                == "Could not find end of varint"@,
            Fault::NoPrevious => self matches DecoderError::Generic(text) && text@
                == "No previous measurement"@,
            Fault::NoEnvelope => self matches DecoderError::Generic(text) && text@
                == "No previous xor value"@,
        }
    }
}

/// Whether the outcome `got` of a read in state `s`, which left state `t`,
/// is what the stream says: the value that stands there, with the position
/// moved behind it, or the error that stands for the fault. Whatever the
/// outcome, the position has not moved back and nothing else has changed.
spec fn reads<T>(
    expected: Result<(T, nat), Fault>,
    got: Result<T, DecoderError>,
    s: CodecState,
    t: CodecState,
) -> bool {
    &&& t == (CodecState { bit_offset: t.bit_offset, ..s })
    &&& t.bit_offset >= s.bit_offset
    &&& match got {
        Ok(v) => expected == Ok::<(T, nat), Fault>((v, t.bit_offset)),
        Err(e) => expected is Err && e.reports(expected->Err_0),
    }
}

/// The sum `val + delta` in two's complement.
fn delta_add(val: u64, delta: i64) -> (r: u64)
    ensures
        r == delta_sum(val, delta),
{
    val.wrapping_add_signed(delta)
}

/// The word that eight bytes spell, most significant first.
fn from_bytes(bytes: &[u8; 8]) -> (r: u64)
    ensures
        r == be_word(bytes@),
{
    ((bytes[0] as u64) << 56) | ((bytes[1] as u64) << 48) | ((bytes[2] as u64) << 40) | ((
    bytes[3] as u64) << 32) | ((bytes[4] as u64) << 24) | ((bytes[5] as u64) << 16) | ((
    bytes[6] as u64) << 8) | (bytes[7] as u64)
}

/// Reads `nbits` bits at the position of the stream into `dst`, from bit
/// `dst_offbits` on. The other bits of `dst` keep their value.
fn read_bits(
    src: &[u8],
    metadata: &mut CodecMetadata,
    dst: &mut [u8],
    dst_offbits: usize,
    nbits: usize,
) -> (r: Result<(), DecoderError>)
    ensures
        final(dst)@.len() == old(dst)@.len(),
        r is Ok <==> nbits == 0 || (dst_offbits + nbits <= 8 * old(dst)@.len() && old(
            metadata,
        )@.bit_offset + nbits <= stream_of(src@).len()),
        r is Ok ==> bits_of(final(dst)@) == overlay(
            bits_of(old(dst)@),
            dst_offbits as int,
            stream_of(src@),
            old(metadata)@.bit_offset as int,
            nbits as int,
        ) && final(metadata)@ == (CodecState {
            bit_offset: (old(metadata)@.bit_offset + nbits) as nat,
            ..old(metadata)@
        }),
        r is Err ==> r->Err_0 is BitCopyError && final(metadata)@ == old(metadata)@,
{
    let off = metadata.bit_offset();
    let end = match off.checked_add(nbits) {
        Some(end) => end,
        None => {
            return Err(DecoderError::BitCopyError(BitCopyError));
        },
    };
    match bitcopy::copy(dst, src, nbits, dst_offbits, off) {
        Ok(()) => {},
        Err(e) => {
            return Err(DecoderError::from(e));
        },
    }
    proof {
        assert(bits_of(dst@) =~= overlay(
            bits_of(old(dst)@),
            dst_offbits as int,
            stream_of(src@),
            off as int,
            nbits as int,
        ));
    }
    metadata.advance_to(end);
    Ok(())
}

/// Reads the bit at the position of the stream.
fn read_bit(buf: &[u8], metadata: &mut CodecMetadata) -> (r: Result<BitValue, DecoderError>)
    ensures
        final(metadata)@ == (CodecState {
            bit_offset: final(metadata)@.bit_offset,
            ..old(metadata)@
        }),
        final(metadata)@.bit_offset >= old(metadata)@.bit_offset,
        match r {
            Ok(v) => parse::read_flag(stream_of(buf@), old(metadata)@.bit_offset) == Ok::<
                (bool, nat),
                Fault,
            >((v.is_set(), final(metadata)@.bit_offset)),
            Err(e) => parse::read_flag(stream_of(buf@), old(metadata)@.bit_offset) is Err && e
                is BitCopyError,
        },
{
    let off = metadata.bit_offset();
    let end = match off.checked_add(1) {
        Some(end) => end,
        None => {
            return Err(DecoderError::BitCopyError(BitCopyError));
        },
    };
    let result = match bitcopy::read_bit(buf, off) {
        Ok(v) => v,
        Err(e) => {
            return Err(DecoderError::from(e));
        },
    };
    proof {
        assert(stream_of(buf@)[off as int] == bits_of(buf@)[off as int]);
    }
    metadata.advance_to(end);

    Ok(result)
}

/// Eight bits copied to a whole byte of a buffer change that byte and no other.
proof fn lemma_byte_copied(
    before: Seq<u8>,
    after: Seq<u8>,
    j: int,
    stream: Seq<bool>,
    off: int,
)
    requires
        after.len() == before.len(),
        0 <= j < before.len(),
        0 <= off,
        off + 8 <= stream.len(),
        bits_of(after) == overlay(bits_of(before), 8 * j, stream, off, 8),
    ensures
        after == before.update(j, byte_at(stream, off as nat)),
{
    let chunk = stream.subrange(off, off + 8);
    let want = before.update(j, pack8(chunk));
    assert forall|i: int| 0 <= i < 8 * after.len() implies bit_at(after, i) == bit_at(want, i) by {
        assert(bits_of(after)[i] == bit_at(after, i));
        assert(bits_of(before)[i] == bit_at(before, i));
        if i / 8 == j {
            lemma_pack8_bit(chunk, (i % 8) as u8);
        }
    }
    lemma_bits_ext(after, want);
}

/// Reads the eight bits at bit `8 * i` behind position `off` of the stream
/// into byte `i` of `bytes`.
fn read_byte(buf: &[u8], off: usize, bytes: &mut [u8], i: usize) -> (r: Result<(), DecoderError>)
    requires
        i < old(bytes)@.len(),
        i < 10,
    ensures
        r is Ok <==> off + 8 * i + 8 <= stream_of(buf@).len(),
        r is Ok ==> final(bytes)@ == old(bytes)@.update(
            i as int,
            byte_at(stream_of(buf@), (off + 8 * i) as nat),
        ),
        r is Err ==> r->Err_0 is BitCopyError,
        final(bytes)@.len() == old(bytes)@.len(),
{
    // The byte is read only where its last bit is one that an offset can reach.
    let end = match off.checked_add(i * 8 + 8) {
        Some(end) => end,
        None => {
            return Err(DecoderError::BitCopyError(BitCopyError));
        },
    };
    match bitcopy::copy(bytes, buf, 8, i * 8, end - 8) {
        Ok(()) => {},
        Err(e) => {
            return Err(DecoderError::from(e));
        },
    }
    proof {
        let stream = stream_of(buf@);
        assert(bits_of(bytes@) =~= overlay(bits_of(old(bytes)@), 8 * i, stream, end - 8, 8));
        lemma_byte_copied(old(bytes)@, bytes@, i as int, stream, end - 8);
    }
    Ok(())
}

/// Reads the varint at the position of the stream.
fn read_varint(buf: &[u8], metadata: &mut CodecMetadata) -> (r: Result<u64, DecoderError>)
    ensures
        reads(
            parse::read_varint(stream_of(buf@), old(metadata)@.bit_offset),
            r,
            old(metadata)@,
            final(metadata)@,
        ),
        r is Ok ==> final(metadata)@.bit_offset > old(metadata)@.bit_offset,
{
    let mut bytes = [0u8; 10];
    let off = metadata.bit_offset();
    let mut i: usize = 0;

    proof {
        assert(bytes@.take(0) =~= Seq::<u8>::empty());
    }
    while i < 10
        invariant
            i <= 10,
            bytes@.len() == 10,
            off == metadata@.bit_offset,
            metadata@ == old(metadata)@,
            forall|j: int| 0 <= j < i ==> bytes@[j] >= 128,
            varint_at(stream_of(buf@), off as nat, Seq::empty()) == varint_at(
                stream_of(buf@),
                off as nat,
                bytes@.take(i as int),
            ),
        decreases 10 - i,
    {
        let ghost before = bytes@;
        match read_byte(buf, off, &mut bytes, i) {
            Ok(()) => {},
            Err(e) => {
                return Err(e);
            },
        }
        proof {
            assert(bytes@.take(i as int) =~= before.take(i as int));
            assert(bytes@.take(i + 1) =~= before.take(i as int).push(bytes@[i as int]));
        }

        //
        // The byte-wise varint decoder takes over once the end of the varint is in sight.
        //
        if bytes[i] < 128 {
            let (value, sz) = match varint::decode(&bytes) {
                Ok(decoded) => decoded,
                Err(e) => {
                    return Err(DecoderError::from(e));
                },
            };
            proof {
                lemma_ends_at_unique(bytes@, sz as nat, (i + 1) as nat);
            }
            metadata.advance_to(off + sz * 8);
            return Ok(value);
        }
        i += 1;
    }

    Err(DecoderError::Generic("Could not find end of varint".to_owned()))
}

/// The bits of a buffer of zero bytes are zero.
proof fn lemma_zero_bytes(bytes: Seq<u8>)
    requires
        forall|j: int| 0 <= j < bytes.len() ==> bytes[j] == 0,
    ensures
        bits_of(bytes) == zeros(8 * bytes.len()),
{
    assert forall|i: int| 0 <= i < 8 * bytes.len() implies bits_of(bytes)[i] == false by {
        lemma_bits_of_zero_one((i % 8) as u8);
    }
    assert(bits_of(bytes) =~= zeros(8 * bytes.len()));
}

/// Reads `n` bits at the position of the stream into bits `at .. at + n` of a word of zeros.
fn read_run(buf: &[u8], metadata: &mut CodecMetadata, at: usize, n: usize) -> (r: Result<
    u64,
    DecoderError,
>)
    ensures
        reads(
            parse::read_run(stream_of(buf@), old(metadata)@.bit_offset, at as nat, n as nat),
            r,
            old(metadata)@,
            final(metadata)@,
        ),
{
    let mut bytes = [0u8; 8];
    proof {
        reveal(parse::read_run);
        lemma_zero_bytes(bytes@);
    }
    match read_bits(buf, metadata, &mut bytes, at, n) {
        Ok(()) => {},
        Err(e) => {
            return Err(e);
        },
    }
    proof {
        lemma_bytes_of_bits(bytes@);
    }
    Ok(from_bytes(&bytes))
}

/// Reads the 64 bits of a value at the position of the stream.
fn read_double(buf: &[u8], metadata: &mut CodecMetadata) -> (r: Result<u64, DecoderError>)
    ensures
        reads(
            parse::read_run(stream_of(buf@), old(metadata)@.bit_offset, 0, 64),
            r,
            old(metadata)@,
            final(metadata)@,
        ),
{
    read_run(buf, metadata, 0, 8 * 8)
}

/// Reads a number of six bits at the position of the stream.
fn read_six(buf: &[u8], metadata: &mut CodecMetadata) -> (r: Result<u8, DecoderError>)
    ensures
        reads(
            parse::read_six(stream_of(buf@), old(metadata)@.bit_offset),
            r,
            old(metadata)@,
            final(metadata)@,
        ),
{
    let mut field = [0u8; 1];
    proof {
        reveal(parse::read_six);
        lemma_zero_bytes(field@);
    }
    match read_bits(buf, metadata, &mut field, 8 - 6, 6) {
        Ok(()) => {},
        Err(e) => {
            return Err(e);
        },
    }
    proof {
        let bits = placed(stream_of(buf@), old(metadata)@.bit_offset, 6, 2, 8);
        assert forall|k: u8| k < 8 implies byte_bit(field@[0], k) == byte_bit(pack8(bits), k) by {
            lemma_pack8_bit(bits, k);
            assert(bits_of(field@)[k as int] == bit_at(field@, k as int));
        }
        lemma_byte_ext(field@[0], pack8(bits));
    }
    Ok(field[0])
}

/// Reads a delta that is only there when the bit before it says so.
fn read_optional_delta(buf: &[u8], metadata: &mut CodecMetadata) -> (r: Result<
    Option<i64>,
    DecoderError,
>)
    ensures
        reads(
            parse::read_optional_delta(stream_of(buf@), old(metadata)@.bit_offset),
            r,
            old(metadata)@,
            final(metadata)@,
        ),
        r is Ok ==> final(metadata)@.bit_offset > old(metadata)@.bit_offset,
{
    match read_bit(buf, metadata) {
        Err(e) => Err(e),
        Ok(BitValue::Zero) => Ok(None),
        Ok(BitValue::One) => {
            match read_varint(buf, metadata) {
                Ok(folded) => Ok(Some(varint::decode_zigzag(folded))),
                Err(e) => Err(e),
            }
        },
    }
}

/// Reads the bits of a value, given the bits of the value before. Where the
/// stream brings a new envelope, it is kept.
fn read_value(buf: &[u8], metadata: &mut CodecMetadata, prev_value: u64) -> (r: Result<
    u64,
    DecoderError,
>)
    ensures
        final(metadata)@.bit_offset >= old(metadata)@.bit_offset,
        match r {
            Ok(v) => parse::read_value(
                stream_of(buf@),
                old(metadata)@.bit_offset,
                old(metadata)@.last_xor,
                prev_value,
            ) == Ok::<((u64, Option<u64>), nat), Fault>(
                ((v, final(metadata)@.last_xor), final(metadata)@.bit_offset),
            ) && final(metadata)@ == (CodecState {
                bit_offset: final(metadata)@.bit_offset,
                last_xor: final(metadata)@.last_xor,
                ..old(metadata)@
            }) && final(metadata)@.bit_offset > old(metadata)@.bit_offset,
            Err(e) => {
                let expected = parse::read_value(
                    stream_of(buf@),
                    old(metadata)@.bit_offset,
                    old(metadata)@.last_xor,
                    prev_value,
                );
                &&& expected is Err && e.reports(expected->Err_0)
                &&& final(metadata)@ == (CodecState {
                    bit_offset: final(metadata)@.bit_offset,
                    ..old(metadata)@
                })
            },
        },
{
    match read_bit(buf, metadata) {
        Err(e) => {
            return Err(e);
        },
        Ok(BitValue::Zero) => {
            return Ok(prev_value);
        },
        Ok(BitValue::One) => {},
    }
    match read_bit(buf, metadata) {
        Err(e) => Err(e),
        Ok(BitValue::Zero) => {
            let xor = match metadata.last_xor() {
                None => {
                    return Err(DecoderError::Generic("No previous xor value".to_owned()));
                },
                Some(xor) => xor,
            };
            let prev_zeros = (xor.leading_zeros(), xor.trailing_zeros());
            proof {
                if xor != 0 {
                    lemma_envelope_bounds(xor);
                } else {
                    vstd::std_specs::bits::axiom_u64_leading_zeros(xor);
                    vstd::std_specs::bits::axiom_u64_trailing_zeros(xor);
                }
            }
            // The envelope of a zero word has no width to read into.
            let width = match 64u32.checked_sub(prev_zeros.0 + prev_zeros.1) {
                Some(width) => width,
                None => {
                    return Err(DecoderError::BitCopyError(BitCopyError));
                },
            };
            match read_run(buf, metadata, prev_zeros.0 as usize, width as usize) {
                Ok(found) => Ok(prev_value ^ found),
                Err(e) => Err(e),
            }
        },
        Ok(BitValue::One) => {
            let leading_zeros = match read_six(buf, metadata) {
                Ok(n) => n,
                Err(e) => {
                    return Err(e);
                },
            };
            let sig_bits = match read_six(buf, metadata) {
                Ok(n) => n,
                Err(e) => {
                    return Err(e);
                },
            };
            let xor = match read_run(buf, metadata, leading_zeros as usize, sig_bits as usize) {
                Ok(found) => found,
                Err(e) => {
                    return Err(e);
                },
            };
            metadata.set_last_xor(xor);
            Ok(prev_value ^ xor)
        },
    }
}

/// Reads the first sample of a stream: it stands there whole.
fn read_first(buf: &[u8], metadata: &mut CodecMetadata) -> (r: Result<Measurement, DecoderError>)
    requires
        old(metadata)@.idx <= old(metadata)@.bit_offset,
    ensures
        match r {
            Ok(m) => parse::read_first(stream_of(buf@), old(metadata)@) == Ok::<
                (Measurement, CodecState),
                Fault,
            >((m, final(metadata)@)),
            Err(e) => {
                let expected = parse::read_first(stream_of(buf@), old(metadata)@);
                &&& expected is Err && e.reports(expected->Err_0)
                &&& final(metadata)@ == (CodecState {
                    bit_offset: final(metadata)@.bit_offset,
                    ..old(metadata)@
                })
            },
        },
        final(metadata)@.bit_offset >= old(metadata)@.bit_offset,
{
    let timestamp = match read_varint(buf, metadata) {
        Ok(v) => v,
        Err(e) => {
            return Err(e);
        },
    };
    let count = match read_varint(buf, metadata) {
        Ok(v) => v,
        Err(e) => {
            return Err(e);
        },
    };
    let value_bits = match read_double(buf, metadata) {
        Ok(v) => v,
        Err(e) => {
            return Err(e);
        },
    };
    metadata.set_last_timestamp_delta(0);

    let measurement = Measurement { timestamp, count, value_bits };
    metadata.finish_sample(measurement);
    Ok(measurement)
}

/// Reads the timestamp delta of a later sample.
fn read_timestamp_delta(buf: &[u8], metadata: &mut CodecMetadata) -> (r: Result<
    i64,
    DecoderError,
>)
    ensures
        reads(
            parse::read_timestamp_delta(stream_of(buf@), old(metadata)@),
            r,
            old(metadata)@,
            final(metadata)@,
        ),
        r is Ok ==> final(metadata)@.bit_offset > old(metadata)@.bit_offset,
{
    if metadata.samples() == 1 {
        match read_varint(buf, metadata) {
            Ok(folded) => Ok(varint::decode_zigzag(folded)),
            Err(e) => Err(e),
        }
    } else {
        match read_optional_delta(buf, metadata) {
            Ok(Some(delta)) => Ok(delta),
            Ok(None) => Ok(metadata.last_timestamp_delta()),
            Err(e) => Err(e),
        }
    }
}

/// Reads a later sample, relative to the sample before it.
fn read_next(buf: &[u8], metadata: &mut CodecMetadata, last_measurement: Measurement) -> (r:
    Result<Measurement, DecoderError>)
    requires
        old(metadata)@.idx <= old(metadata)@.bit_offset,
    ensures
        match r {
            Ok(m) => parse::read_next(stream_of(buf@), old(metadata)@, last_measurement) == Ok::<
                (Measurement, CodecState),
                Fault,
            >((m, final(metadata)@)),
            Err(e) => {
                let expected = parse::read_next(stream_of(buf@), old(metadata)@, last_measurement);
                &&& expected is Err && e.reports(expected->Err_0)
                &&& final(metadata)@ == (CodecState {
                    bit_offset: final(metadata)@.bit_offset,
                    ..old(metadata)@
                })
            },
        },
        final(metadata)@.bit_offset >= old(metadata)@.bit_offset,
{
    let timestamp_delta = match read_timestamp_delta(buf, metadata) {
        Ok(delta) => delta,
        Err(e) => {
            return Err(e);
        },
    };
    let timestamp = delta_add(last_measurement.timestamp, timestamp_delta);

    let count = match read_optional_delta(buf, metadata) {
        Ok(Some(count_delta)) => delta_add(last_measurement.count, count_delta),
        Ok(None) => last_measurement.count,
        Err(e) => {
            return Err(e);
        },
    };

    let value_bits = match read_value(buf, metadata, last_measurement.value_bits) {
        Ok(v) => v,
        Err(e) => {
            return Err(e);
        },
    };
    metadata.set_last_timestamp_delta(timestamp_delta);

    let measurement = Measurement { timestamp, count, value_bits };
    metadata.finish_sample(measurement);
    Ok(measurement)
}

/// Reads the next sample of the stream in `buf`.
///
/// The sample is read from the position of `metadata` on, relative to the
/// sample before it; `metadata` then stands behind it. Fails with
/// `BitCopyError` when the stream ends before the sample does, and with
/// `Generic` when a varint does not end within ten bytes, or when the sample
/// refers to a sample or an envelope before it and there is none. A call
/// that fails changes nothing but the position, which never moves back.
pub fn decode(buf: &[u8], metadata: &mut CodecMetadata) -> (r: Result<Measurement, DecoderError>)
    ensures
        match r {
            Ok(m) => parse::read_sample(stream_of(buf@), old(metadata)@) == Ok::<
                (Measurement, CodecState),
                Fault,
            >((m, final(metadata)@)),
            Err(e) => {
                let expected = parse::read_sample(stream_of(buf@), old(metadata)@);
                &&& expected is Err && e.reports(expected->Err_0)
                &&& final(metadata)@ == (CodecState {
                    bit_offset: final(metadata)@.bit_offset,
                    ..old(metadata)@
                })
            },
        },
        final(metadata)@.bit_offset >= old(metadata)@.bit_offset,
{
    proof {
        reveal(parse::read_sample);
    }
    if metadata.samples() == 0 {
        read_first(buf, metadata)
    } else {
        let last_measurement = match metadata.last_measurement() {
            None => {
                return Err(DecoderError::Generic("No previous measurement".to_owned()));
            },
            Some(measure) => measure,
        };
        read_next(buf, metadata, last_measurement)
    }
}

} // verus!
