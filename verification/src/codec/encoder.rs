//! Writing samples to a stream.

use vstd::prelude::*;
use vstd::std_specs::convert::FromSpecImpl;
use crate::Measurement;
use crate::codec::layout::{
    can_follow, count_record, envelope_after, first_record, leading, lemma_envelope_bounds,
    lemma_sample_record_not_empty, optional_delta, padding, sample_image, sample_record,
    signed_delta, significant, six_bits, state_after, timestamp_record, value_record,
    varint_record, within_envelope, word_run,
};
use crate::codec::{
    lemma_prefix_kept_twice, lemma_written_keeps_prefix, lemma_written_twice, prefix_kept,
    stream_of, written, CodecMetadata, CodecState,
};
use crate::utils::bitcopy;
use crate::utils::bitcopy::{BitCopyError, BitValue};
use crate::utils::bits::{be_bytes, bits_of, lemma_bits_of_zero_one, overlay, word_byte};
use crate::utils::varint;
use crate::utils::varint::{lemma_varint_len_u64, zigzag};

verus! {

/// Why a sample could not be written.
pub enum EncoderError {
    /// A sample after the first was to be written with no sample before it on record.
    Generic,
    /// The sample does not fit into what is left of the buffer.
    BitCopyError(BitCopyError),
}

impl From<BitCopyError> for EncoderError {
    fn from(e: BitCopyError) -> (r: Self) {
        EncoderError::BitCopyError(e)
    }
}

impl FromSpecImpl<BitCopyError> for EncoderError {
    open spec fn obeys_from_spec() -> bool {
        true
    }

    open spec fn from_spec(e: BitCopyError) -> Self {
        EncoderError::BitCopyError(e)
    }
}

/// The eight bytes of `val`, most significant first.
fn to_bytes(val: u64) -> (r: [u8; 8])
    ensures
        r@ == be_bytes(val),
{
    let r = [
        #[verifier::truncate] ((val >> 56) as u8),
        #[verifier::truncate] ((val >> 48) as u8),
        #[verifier::truncate] ((val >> 40) as u8),
        #[verifier::truncate] ((val >> 32) as u8),
        #[verifier::truncate] ((val >> 24) as u8),
        #[verifier::truncate] ((val >> 16) as u8),
        #[verifier::truncate] ((val >> 8) as u8),
        #[verifier::truncate] (val as u8),
    ];
    proof {
        assert(((val >> 56) as u8) == word_byte(val, 0) && ((val >> 48) as u8) == word_byte(val, 1)
            && ((val >> 40) as u8) == word_byte(val, 2) && ((val >> 32) as u8) == word_byte(val, 3)
            && ((val >> 24) as u8) == word_byte(val, 4) && ((val >> 16) as u8) == word_byte(val, 5)
            && ((val >> 8) as u8) == word_byte(val, 6) && (val as u8) == word_byte(val, 7))
            by (bit_vector);
        assert(r@ =~= be_bytes(val));
    }
    r
}

/// What a write of `run` at position `off`, which left the position at
/// `end`, owes. It succeeds exactly when the run fits into the stream (an
/// empty run always does); then the run stands in the buffer and the
/// position stands behind it. Whether it succeeds or not, the bits before
/// `off` are kept and the position has not moved back.
spec fn put(
    before: Seq<u8>,
    after: Seq<u8>,
    off: nat,
    end: nat,
    ok: bool,
    run: Seq<bool>,
) -> bool {
    &&& prefix_kept(before, after, off)
    &&& ok <==> run.len() == 0 || off + run.len() <= stream_of(before).len()
    &&& ok ==> written(before, after, off, run) && end == off + run.len()
    &&& end >= off
}

/// Whether two states differ in the bit position at most.
pub open spec fn same_but_offset(s: CodecState, t: CodecState) -> bool {
    t == (CodecState { bit_offset: t.bit_offset, ..s })
}

/// A write that follows a successful write puts the two runs as one.
proof fn lemma_put_then(
    a: Seq<u8>,
    b: Seq<u8>,
    c: Seq<u8>,
    off: nat,
    mid: nat,
    end: nat,
    ok: bool,
    first: Seq<bool>,
    second: Seq<bool>,
)
    requires
        put(a, b, off, mid, true, first),
        put(b, c, mid, end, ok, second),
    ensures
        put(a, c, off, end, ok, first + second),
{
    lemma_prefix_kept_twice(a, b, c, off, mid);
    if ok {
        lemma_written_twice(a, b, c, off, first, second);
    }
}

/// Writes `nbits` bits of `src`, from bit `src_offbits` on, at the position of the stream.
fn write_bits(
    buf: &mut [u8],
    metadata: &mut CodecMetadata,
    src: &[u8],
    src_offbits: usize,
    nbits: usize,
) -> (r: Result<(), EncoderError>)
    requires
        src_offbits + nbits <= 8 * src@.len(),
    ensures
        put(
            old(buf)@,
            final(buf)@,
            old(metadata)@.bit_offset,
            final(metadata)@.bit_offset,
            r is Ok,
            bits_of(src@).subrange(src_offbits as int, src_offbits + nbits),
        ),
        same_but_offset(old(metadata)@, final(metadata)@),
        r is Err ==> r->Err_0 is BitCopyError,
{
    let off = metadata.bit_offset();
    let end = match off.checked_add(nbits) {
        Some(end) => end,
        None => {
            return Err(EncoderError::BitCopyError(BitCopyError));
        },
    };
    match bitcopy::copy(buf, src, nbits, off, src_offbits) {
        Ok(()) => {},
        Err(e) => {
            return Err(EncoderError::from(e));
        },
    }
    proof {
        let run = bits_of(src@).subrange(src_offbits as int, src_offbits + nbits);
        assert(bits_of(buf@) =~= overlay(
            bits_of(old(buf)@),
            off as int,
            run,
            0,
            run.len() as int,
        ));
        lemma_written_keeps_prefix(old(buf)@, buf@, off as nat, run);
    }
    metadata.advance_to(end);
    Ok(())
}

/// Writes `value` as a varint at the position of the stream.
fn write_varint(buf: &mut [u8], metadata: &mut CodecMetadata, value: u64) -> (r: Result<
    (),
    EncoderError,
>)
    ensures
        put(
            old(buf)@,
            final(buf)@,
            old(metadata)@.bit_offset,
            final(metadata)@.bit_offset,
            r is Ok,
            varint_record(value),
        ),
        same_but_offset(old(metadata)@, final(metadata)@),
        r is Err ==> r->Err_0 is BitCopyError,
{
    let mut varint_buf = [0u8; 10];
    proof {
        lemma_varint_len_u64(value);
    }
    let sz = varint::encode(value, &mut varint_buf).unwrap();
    proof {
        assert(bits_of(varint_buf@).subrange(0, 8 * sz) =~= varint_record(value));
    }
    write_bits(buf, metadata, &varint_buf, 0, sz * 8)
}

/// Writes the 64 bits of a value at the position of the stream.
fn write_double(buf: &mut [u8], metadata: &mut CodecMetadata, value: u64) -> (r: Result<
    (),
    EncoderError,
>)
    ensures
        put(
            old(buf)@,
            final(buf)@,
            old(metadata)@.bit_offset,
            final(metadata)@.bit_offset,
            r is Ok,
            bits_of(be_bytes(value)),
        ),
        same_but_offset(old(metadata)@, final(metadata)@),
        r is Err ==> r->Err_0 is BitCopyError,
{
    let bytes = to_bytes(value);
    proof {
        assert(bits_of(bytes@).subrange(0, 64) =~= bits_of(be_bytes(value)));
    }
    write_bits(buf, metadata, &bytes, 0, 64)
}

/// Writes one bit at the position of the stream.
fn write_bit(buf: &mut [u8], metadata: &mut CodecMetadata, value: BitValue) -> (r: Result<
    (),
    EncoderError,
>)
    ensures
        put(
            old(buf)@,
            final(buf)@,
            old(metadata)@.bit_offset,
            final(metadata)@.bit_offset,
            r is Ok,
            seq![value.is_set()],
        ),
        same_but_offset(old(metadata)@, final(metadata)@),
        r is Err ==> r->Err_0 is BitCopyError,
{
    let off = metadata.bit_offset();
    let end = match off.checked_add(1) {
        Some(end) => end,
        None => {
            return Err(EncoderError::BitCopyError(BitCopyError));
        },
    };
    match bitcopy::write_bit(buf, off, value) {
        Ok(()) => {},
        Err(e) => {
            return Err(EncoderError::from(e));
        },
    }
    proof {
        let run = seq![value.is_set()];
        assert(bits_of(buf@) =~= overlay(bits_of(old(buf)@), off as int, run, 0, 1));
        lemma_written_keeps_prefix(old(buf)@, buf@, off as nat, run);
    }
    metadata.advance_to(end);
    Ok(())
}

/// A write that fails on a run fails on every run that is at least as long.
proof fn lemma_put_fails(
    a: Seq<u8>,
    c: Seq<u8>,
    off: nat,
    end: nat,
    run: Seq<bool>,
    whole: Seq<bool>,
)
    requires
        put(a, c, off, end, false, run),
        run.len() <= whole.len(),
    ensures
        put(a, c, off, end, false, whole),
{
}

/// The difference `cur - prev` in two's complement.
fn signed_difference(cur: u64, prev: u64) -> (r: i64)
    ensures
        r == signed_delta(cur, prev),
{
    let d = cur.wrapping_sub(prev);
    assert(d as i64 == (if d > 0x7fff_ffff_ffff_ffff {
        d - 0x1_0000_0000_0000_0000
    } else {
        d as int
    })) by (bit_vector);
    #[verifier::truncate]
    (d as i64)
}

/// Writes a delta that is only there when `present`: the bit that says so, then the delta.
fn write_optional_delta(
    buf: &mut [u8],
    metadata: &mut CodecMetadata,
    present: bool,
    delta: i64,
) -> (r: Result<(), EncoderError>)
    ensures
        put(
            old(buf)@,
            final(buf)@,
            old(metadata)@.bit_offset,
            final(metadata)@.bit_offset,
            r is Ok,
            optional_delta(present, delta),
        ),
        same_but_offset(old(metadata)@, final(metadata)@),
        r is Err ==> r->Err_0 is BitCopyError,
{
    if !present {
        return write_bit(buf, metadata, BitValue::Zero);
    }
    let ghost b0 = buf@;
    let ghost off0 = metadata@.bit_offset;
    let r = write_bit(buf, metadata, BitValue::One);
    if r.is_err() {
        proof {
            lemma_put_fails(
                b0,
                buf@,
                off0,
                metadata@.bit_offset,
                seq![true],
                optional_delta(present, delta),
            );
        }
        return r;
    }
    let ghost b1 = buf@;
    let ghost off1 = metadata@.bit_offset;
    let r = write_varint(buf, metadata, varint::encode_zigzag(delta));
    proof {
        lemma_put_then(
            b0,
            b1,
            buf@,
            off0,
            off1,
            metadata@.bit_offset,
            r is Ok,
            seq![true],
            varint_record(zigzag(delta)),
        );
    }
    r
}

/// Writes a value as its XOR with the value before. Where the XOR does not
/// lie inside the current envelope, a new envelope is written and kept.
fn write_value(buf: &mut [u8], metadata: &mut CodecMetadata, xor: u64) -> (r: Result<
    (),
    EncoderError,
>)
    ensures
        put(
            old(buf)@,
            final(buf)@,
            old(metadata)@.bit_offset,
            final(metadata)@.bit_offset,
            r is Ok,
            value_record(old(metadata)@.last_xor, xor),
        ),
        r is Ok ==> final(metadata)@ == (CodecState {
            bit_offset: final(metadata)@.bit_offset,
            last_xor: envelope_after(old(metadata)@.last_xor, xor),
            ..old(metadata)@
        }),
        r is Err ==> r->Err_0 is BitCopyError && same_but_offset(
            old(metadata)@,
            final(metadata)@,
        ),
{
    if xor == 0 {
        return write_bit(buf, metadata, BitValue::Zero);
    }
    let ghost env = metadata@.last_xor;
    let ghost whole = value_record(env, xor);
    let ghost b0 = buf@;
    let ghost off0 = metadata@.bit_offset;

    let r = write_bit(buf, metadata, BitValue::One);
    if r.is_err() {
        proof {
            lemma_put_fails(b0, buf@, off0, metadata@.bit_offset, seq![true], whole);
        }
        return r;
    }
    let curr_zeros = (xor.leading_zeros(), xor.trailing_zeros());
    proof {
        lemma_envelope_bounds(xor);
    }
    let fbytes = to_bytes(xor);

    // The envelope of the XOR before is used again wherever it is wide enough.
    let reuse = match metadata.last_xor() {
        Some(prev_xor) => {
            let prev_zeros = (prev_xor.leading_zeros(), prev_xor.trailing_zeros());
            if curr_zeros.0 >= prev_zeros.0 && curr_zeros.1 >= prev_zeros.1 {
                Some(prev_zeros)
            } else {
                None
            }
        },
        None => None,
    };
    assert(reuse is Some <==> within_envelope(env, xor));

    let ghost b1 = buf@;
    let ghost off1 = metadata@.bit_offset;
    match reuse {
        Some(prev_zeros) => {
            let r = write_bit(buf, metadata, BitValue::Zero);
            proof {
                lemma_put_then(
                    b0,
                    b1,
                    buf@,
                    off0,
                    off1,
                    metadata@.bit_offset,
                    r is Ok,
                    seq![true],
                    seq![false],
                );
                assert(seq![true] + seq![false] =~= seq![true, false]);
            }
            if r.is_err() {
                proof {
                    lemma_put_fails(b0, buf@, off0, metadata@.bit_offset, seq![true, false], whole);
                }
                return r;
            }
            let bits = 64 - (prev_zeros.0 + prev_zeros.1);
            let ghost b2 = buf@;
            let ghost off2 = metadata@.bit_offset;
            let r = write_bits(buf, metadata, &fbytes, prev_zeros.0 as usize, bits as usize);
            proof {
                lemma_put_then(
                    b0,
                    b2,
                    buf@,
                    off0,
                    off2,
                    metadata@.bit_offset,
                    r is Ok,
                    seq![true, false],
                    word_run(xor, leading(env->0) as int, significant(env->0)),
                );
            }
            r
        },
        None => {
            let r = write_bit(buf, metadata, BitValue::One);
            proof {
                lemma_put_then(
                    b0,
                    b1,
                    buf@,
                    off0,
                    off1,
                    metadata@.bit_offset,
                    r is Ok,
                    seq![true],
                    seq![true],
                );
                assert(seq![true] + seq![true] =~= seq![true, true]);
            }
            if r.is_err() {
                proof {
                    lemma_put_fails(b0, buf@, off0, metadata@.bit_offset, seq![true, true], whole);
                }
                return r;
            }
            let lead_zero_bits = [curr_zeros.0 as u8];
            let sig_bits = [64 - (curr_zeros.0 + curr_zeros.1) as u8];
            let ghost lead_run = six_bits(leading(xor) as u8);
            let ghost sig_run = six_bits(significant(xor) as u8);
            let ghost xor_run = word_run(xor, leading(xor) as int, significant(xor));
            proof {
                assert(lead_zero_bits@ =~= seq![leading(xor) as u8]);
                assert(sig_bits@ =~= seq![significant(xor) as u8]);
            }

            let ghost b2 = buf@;
            let ghost off2 = metadata@.bit_offset;
            let r = write_bits(buf, metadata, &lead_zero_bits, 8 - 6, 6);
            proof {
                lemma_put_then(
                    b0,
                    b2,
                    buf@,
                    off0,
                    off2,
                    metadata@.bit_offset,
                    r is Ok,
                    seq![true, true],
                    lead_run,
                );
            }
            if r.is_err() {
                proof {
                    lemma_put_fails(
                        b0,
                        buf@,
                        off0,
                        metadata@.bit_offset,
                        seq![true, true] + lead_run,
                        whole,
                    );
                }
                return r;
            }
            let ghost b3 = buf@;
            let ghost off3 = metadata@.bit_offset;
            let r = write_bits(buf, metadata, &sig_bits, 8 - 6, 6);
            proof {
                lemma_put_then(
                    b0,
                    b3,
                    buf@,
                    off0,
                    off3,
                    metadata@.bit_offset,
                    r is Ok,
                    seq![true, true] + lead_run,
                    sig_run,
                );
            }
            if r.is_err() {
                proof {
                    lemma_put_fails(
                        b0,
                        buf@,
                        off0,
                        metadata@.bit_offset,
                        seq![true, true] + lead_run + sig_run,
                        whole,
                    );
                }
                return r;
            }
            let ghost b4 = buf@;
            let ghost off4 = metadata@.bit_offset;
            let r = write_bits(buf, metadata, &fbytes, curr_zeros.0 as usize, sig_bits[0] as usize);
            proof {
                lemma_put_then(
                    b0,
                    b4,
                    buf@,
                    off0,
                    off4,
                    metadata@.bit_offset,
                    r is Ok,
                    seq![true, true] + lead_run + sig_run,
                    xor_run,
                );
            }
            if r.is_err() {
                return r;
            }
            metadata.set_last_xor(xor);
            Ok(())
        },
    }
}

/// Writes the first sample of a stream: it is written whole.
fn write_first(buf: &mut [u8], metadata: &mut CodecMetadata, measurement: &Measurement) -> (r:
    Result<(), EncoderError>)
    ensures
        put(
            old(buf)@,
            final(buf)@,
            old(metadata)@.bit_offset,
            final(metadata)@.bit_offset,
            r is Ok,
            first_record(*measurement),
        ),
        same_but_offset(old(metadata)@, final(metadata)@),
        r is Err ==> r->Err_0 is BitCopyError,
{
    let ghost whole = first_record(*measurement);
    let ghost ts_run = varint_record(measurement.timestamp);
    let ghost count_run = varint_record(measurement.count);
    let ghost b0 = buf@;
    let ghost off0 = metadata@.bit_offset;

    let r = write_varint(buf, metadata, measurement.timestamp);
    if r.is_err() {
        proof {
            lemma_put_fails(b0, buf@, off0, metadata@.bit_offset, ts_run, whole);
        }
        return r;
    }
    let ghost b1 = buf@;
    let ghost off1 = metadata@.bit_offset;
    let r = write_varint(buf, metadata, measurement.count);
    proof {
        lemma_put_then(b0, b1, buf@, off0, off1, metadata@.bit_offset, r is Ok, ts_run, count_run);
    }
    if r.is_err() {
        proof {
            lemma_put_fails(b0, buf@, off0, metadata@.bit_offset, ts_run + count_run, whole);
        }
        return r;
    }
    let ghost b2 = buf@;
    let ghost off2 = metadata@.bit_offset;
    let r = write_double(buf, metadata, measurement.value_bits);
    proof {
        lemma_put_then(
            b0,
            b2,
            buf@,
            off0,
            off2,
            metadata@.bit_offset,
            r is Ok,
            ts_run + count_run,
            bits_of(be_bytes(measurement.value_bits)),
        );
    }
    r
}

/// Writes the timestamp of a later sample, given its delta to the timestamp before.
fn write_timestamp(buf: &mut [u8], metadata: &mut CodecMetadata, timestamp_delta: i64) -> (r:
    Result<(), EncoderError>)
    ensures
        put(
            old(buf)@,
            final(buf)@,
            old(metadata)@.bit_offset,
            final(metadata)@.bit_offset,
            r is Ok,
            if old(metadata)@.idx == 1 {
                varint_record(zigzag(timestamp_delta))
            } else {
                optional_delta(
                    timestamp_delta != old(metadata)@.last_timestamp_delta,
                    timestamp_delta,
                )
            },
        ),
        same_but_offset(old(metadata)@, final(metadata)@),
        r is Err ==> r->Err_0 is BitCopyError,
{
    if metadata.samples() == 1 {
        write_varint(buf, metadata, varint::encode_zigzag(timestamp_delta))
    } else {
        let changed = timestamp_delta != metadata.last_timestamp_delta();
        write_optional_delta(buf, metadata, changed, timestamp_delta)
    }
}

/// Clears what is left of the byte in which the stream ends.
fn clear_rest_of_byte(buf: &mut [u8], metadata: &CodecMetadata)
    requires
        metadata@.bit_offset <= 8 * old(buf)@.len(),
    ensures
        written(old(buf)@, final(buf)@, metadata@.bit_offset, padding(metadata@.bit_offset)),
{
    let off = metadata.bit_offset();
    let used = off % 8;
    if used != 0 {
        let zero = [0u8];
        let r = bitcopy::copy(buf, &zero, 8 - used, off, 0);
        proof {
            let run = padding(off as nat);
            assert(r is Ok);
            assert forall|i: int| 0 <= i < run.len() implies bits_of(zero@)[i] == run[i] by {
                lemma_bits_of_zero_one((i % 8) as u8);
            }
            assert(bits_of(buf@) =~= overlay(
                bits_of(old(buf)@),
                off as int,
                run,
                0,
                run.len() as int,
            ));
        }
    } else {
        proof {
            assert(bits_of(buf@) =~= overlay(bits_of(buf@), off as int, padding(off as nat), 0, 0));
        }
    }
}

/// Writes `measurement` as the next sample of the stream in `buf`.
///
/// The sample goes to the bits from the position of `metadata` on, and the
/// bits that are left of its last byte are cleared. Every bit before the
/// position keeps its value, and so does every byte behind the sample.
/// Fails with `Generic` when a sample after the first has no sample before
/// it on record: nothing is written then. Fails with `BitCopyError` when the
/// sample does not fit into the rest of the stream: of `metadata` nothing
/// but the position has changed then, and the position never moves back.
pub fn encode(buf: &mut [u8], metadata: &mut CodecMetadata, measurement: &Measurement) -> (r:
    Result<(), EncoderError>)
    ensures
        prefix_kept(old(buf)@, final(buf)@, old(metadata)@.bit_offset),
        final(metadata)@.bit_offset >= old(metadata)@.bit_offset,
        match r {
            Ok(()) => {
                &&& can_follow(old(metadata)@)
                &&& old(metadata)@.bit_offset + sample_record(old(metadata)@, *measurement).len()
                    <= stream_of(old(buf)@).len()
                &&& written(
                    old(buf)@,
                    final(buf)@,
                    old(metadata)@.bit_offset,
                    sample_image(old(metadata)@, *measurement),
                )
                &&& final(metadata)@ == state_after(old(metadata)@, *measurement)
            },
            Err(EncoderError::Generic) => {
                &&& !can_follow(old(metadata)@)
                &&& final(buf)@ == old(buf)@
                &&& final(metadata)@ == old(metadata)@
            },
            Err(EncoderError::BitCopyError(_)) => {
                &&& can_follow(old(metadata)@)
                &&& old(metadata)@.bit_offset + sample_record(old(metadata)@, *measurement).len()
                    > stream_of(old(buf)@).len()
                &&& same_but_offset(old(metadata)@, final(metadata)@)
            },
        },
{
    let ghost s0 = metadata@;
    let ghost b0 = buf@;
    let ghost off0 = metadata@.bit_offset;
    let ghost whole = sample_record(s0, *measurement);
    proof {
        lemma_sample_record_not_empty(s0, *measurement);
    }

    let timestamp_delta;
    if metadata.samples() == 0 {
        let r = write_first(buf, metadata, measurement);
        if r.is_err() {
            return r;
        }
        timestamp_delta = 0;
    } else {
        let last_measurement = match metadata.last_measurement() {
            None => {
                return Err(EncoderError::Generic);
            },
            Some(measure) => measure,
        };
        let ghost ts_run = timestamp_record(s0, last_measurement, *measurement);
        let ghost count_run = count_record(last_measurement, *measurement);
        let ghost value_run = value_record(
            s0.last_xor,
            last_measurement.value_bits ^ measurement.value_bits,
        );

        timestamp_delta = signed_difference(measurement.timestamp, last_measurement.timestamp);
        let r = write_timestamp(buf, metadata, timestamp_delta);
        if r.is_err() {
            proof {
                lemma_put_fails(b0, buf@, off0, metadata@.bit_offset, ts_run, whole);
            }
            return r;
        }
        let count_delta = signed_difference(measurement.count, last_measurement.count);
        let ghost b1 = buf@;
        let ghost off1 = metadata@.bit_offset;
        let r = write_optional_delta(buf, metadata, count_delta != 0, count_delta);
        proof {
            lemma_put_then(
                b0,
                b1,
                buf@,
                off0,
                off1,
                metadata@.bit_offset,
                r is Ok,
                ts_run,
                count_run,
            );
        }
        if r.is_err() {
            proof {
                lemma_put_fails(b0, buf@, off0, metadata@.bit_offset, ts_run + count_run, whole);
            }
            return r;
        }
        let xor = last_measurement.value_bits ^ measurement.value_bits;
        let ghost b2 = buf@;
        let ghost off2 = metadata@.bit_offset;
        let r = write_value(buf, metadata, xor);
        proof {
            lemma_put_then(
                b0,
                b2,
                buf@,
                off0,
                off2,
                metadata@.bit_offset,
                r is Ok,
                ts_run + count_run,
                value_run,
            );
        }
        if r.is_err() {
            return r;
        }
    }

    let ghost b3 = buf@;
    clear_rest_of_byte(buf, metadata);
    proof {
        let end = metadata@.bit_offset;
        lemma_written_twice(b0, b3, buf@, off0, whole, padding(end));
        lemma_written_keeps_prefix(b0, buf@, off0, whole + padding(end));
    }
    metadata.set_last_timestamp_delta(timestamp_delta);
    metadata.finish_sample(*measurement);
    Ok(())
}

} // verus!
