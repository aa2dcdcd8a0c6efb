//! What is written can be read: the laws that tie the layout of the stream
//! to the reading of it.

use vstd::prelude::*;
use vstd::std_specs::bits::{axiom_u64_leading_zeros, axiom_u64_trailing_zeros};
use crate::Measurement;
use crate::codec::layout::{
    can_follow, count_record, delta_sum, envelope_after, first_record, leading,
    lemma_envelope_bounds, optional_delta, padding, sample_image, sample_record, signed_delta,
    significant, six_bits, state_after, timestamp_record, trailing, value_record, varint_record,
    within_envelope, word_run,
};
use crate::codec::parse::{
    byte_at, placed, read_delta, read_first, read_flag, read_next, read_optional_delta, read_run,
    read_sample, read_six, read_timestamp_delta, read_value, read_varint, varint_at, Fault,
};
use crate::codec::{stream_of, written, CodecState};
use crate::utils::bits::{
    be_bytes, bits_of, byte_bit, lemma_be_bytes_bits, lemma_be_word_bytes, lemma_byte_ext,
    lemma_bytes_of_bits, lemma_pack8_bit, lemma_six_bit_byte, lemma_xor, overlay, pack8, word_bit,
};
use crate::utils::varint::{
    ends_at, lemma_varint_bytes_value, lemma_varint_len_u64, lemma_zigzag_round_trip,
    varint_bytes, zigzag,
};

verus! {

/// Whether the bits `run` stand in `stream` from position `off` on.
pub open spec fn holds_at(stream: Seq<bool>, off: nat, run: Seq<bool>) -> bool {
    &&& off + run.len() <= stream.len()
    &&& forall|i: int| 0 <= i < run.len() ==> stream[off + i] == run[i]
}

/// Where two runs stand as one, each stands at its place.
pub proof fn lemma_holds_at_split(stream: Seq<bool>, off: nat, first: Seq<bool>, second: Seq<bool>)
    requires
        holds_at(stream, off, first + second),
    ensures
        holds_at(stream, off, first),
        holds_at(stream, off + first.len(), second),
{
    let whole = first + second;
    assert forall|i: int| 0 <= i < first.len() implies stream[off + i] == first[i] by {
        assert(whole[i] == first[i]);
    }
    assert forall|i: int| 0 <= i < second.len() implies stream[off + first.len() + i]
        == second[i] by {
        assert(whole[first.len() + i] == second[i]);
    }
}

/// A bit that stands in the stream is the bit that is read there.
pub proof fn lemma_read_flag(stream: Seq<bool>, off: nat, flag: bool)
    requires
        holds_at(stream, off, seq![flag]),
    ensures
        read_flag(stream, off) == Ok::<(bool, nat), Fault>((flag, off + 1)),
{
    assert(stream[off + 0int] == seq![flag][0]);
}

/// Where the bits of some bytes stand in the stream, each byte is read at its place.
proof fn lemma_byte_at(stream: Seq<bool>, off: nat, bytes: Seq<u8>, k: int)
    requires
        holds_at(stream, off, bits_of(bytes)),
        0 <= k < bytes.len(),
    ensures
        off + 8 * k + 8 <= stream.len(),
        byte_at(stream, (off + 8 * k) as nat) == bytes[k],
{
    let chunk = stream.subrange(off + 8 * k, off + 8 * k + 8);
    assert forall|j: u8| j < 8 implies byte_bit(pack8(chunk), j) == byte_bit(bytes[k], j) by {
        lemma_pack8_bit(chunk, j);
        let i = 8 * k + j;
        assert(stream[off + i] == bits_of(bytes)[i]);
        assert(i / 8 == k && i % 8 == j as int);
    }
    lemma_byte_ext(pack8(chunk), bytes[k]);
}

/// Where the bits of one varint stand in the stream, reading goes on from
/// any of its bytes to its end.
proof fn lemma_varint_at(stream: Seq<bool>, off: nat, bytes: Seq<u8>, k: int)
    requires
        holds_at(stream, off, bits_of(bytes)),
        ends_at(bytes, bytes.len()),
        bytes.len() <= 10,
        0 <= k < bytes.len(),
    ensures
        varint_at(stream, off, bytes.take(k)) == Ok::<Seq<u8>, Fault>(bytes),
    decreases bytes.len() - k,
{
    lemma_byte_at(stream, off, bytes, k);
    assert(bytes.take(k).push(bytes[k]) =~= bytes.take(k + 1));
    if k == bytes.len() - 1 {
        assert(bytes.take(k + 1) =~= bytes);
    } else {
        lemma_varint_at(stream, off, bytes, k + 1);
    }
}

/// A varint that stands in the stream is read as the value it was made from.
pub proof fn lemma_read_varint(stream: Seq<bool>, off: nat, v: u64)
    requires
        holds_at(stream, off, varint_record(v)),
    ensures
        read_varint(stream, off) == Ok::<(u64, nat), Fault>((v, off + varint_record(v).len())),
{
    let bytes = varint_bytes(v as nat);
    lemma_varint_bytes_value(v as nat);
    lemma_varint_len_u64(v);
    lemma_varint_at(stream, off, bytes, 0);
    assert(bytes.take(0) =~= Seq::<u8>::empty());
}

/// A delta that stands in the stream is read as the delta it was made from.
pub proof fn lemma_read_delta(stream: Seq<bool>, off: nat, delta: i64)
    requires
        holds_at(stream, off, varint_record(zigzag(delta))),
    ensures
        read_delta(stream, off) == Ok::<(i64, nat), Fault>(
            (delta, off + varint_record(zigzag(delta)).len()),
        ),
{
    lemma_read_varint(stream, off, zigzag(delta));
    lemma_zigzag_round_trip(delta);
}

/// An optional delta that stands in the stream is read as it was written:
/// the delta where one was written, and none where none was.
pub proof fn lemma_read_optional_delta(stream: Seq<bool>, off: nat, present: bool, delta: i64)
    requires
        holds_at(stream, off, optional_delta(present, delta)),
    ensures
        read_optional_delta(stream, off) == Ok::<(Option<i64>, nat), Fault>(
            (if present { Some(delta) } else { None }, off + optional_delta(present, delta).len()),
        ),
{
    if present {
        lemma_holds_at_split(stream, off, seq![true], varint_record(zigzag(delta)));
        lemma_read_flag(stream, off, true);
        lemma_read_delta(stream, off + 1, delta);
    } else {
        lemma_read_flag(stream, off, false);
    }
}

/// A number below 64 that stands in the stream in six bits is read as that number.
pub proof fn lemma_read_six(stream: Seq<bool>, off: nat, v: u8)
    requires
        v < 64,
        holds_at(stream, off, six_bits(v)),
    ensures
        read_six(stream, off) == Ok::<(u8, nat), Fault>((v, off + 6)),
{
    reveal(read_six);
    let bits = placed(stream, off, 6, 2, 8);
    assert forall|k: u8| k < 8 implies byte_bit(pack8(bits), k) == byte_bit(v, k) by {
        lemma_pack8_bit(bits, k);
        lemma_six_bit_byte(v);
        if k >= 2 {
            assert(stream[off + (k - 2)] == six_bits(v)[k - 2]);
            assert(six_bits(v)[k - 2] == bits_of(seq![v])[k as int]);
        }
    }
    lemma_byte_ext(pack8(bits), v);
}

/// The bits of a word above its highest and below its lowest set bit are zero.
pub proof fn lemma_outside_envelope(x: u64, k: u8)
    requires
        k < 64,
        k < leading(x) || k >= 64 - trailing(x),
    ensures
        !word_bit(x, k),
{
    axiom_u64_leading_zeros(x);
    axiom_u64_trailing_zeros(x);
    let j = (63 - k) as u64;
    assert((x >> j) & 1u64 == 0u64);
}

/// A run of the bits of a word that stands in the stream is read as the
/// word, where the word has no set bit outside the run.
pub proof fn lemma_read_run(stream: Seq<bool>, off: nat, w: u64, at: nat, n: nat)
    requires
        at + n <= 64,
        holds_at(stream, off, word_run(w, at as int, n as int)),
        forall|k: u8| k < 64 && !(at <= k < at + n) ==> !word_bit(w, k),
    ensures
        read_run(stream, off, at, n) == Ok::<(u64, nat), Fault>((w, off + n)),
{
    reveal(read_run);
    let bits = placed(stream, off, n, at, 64);
    let whole = bits_of(be_bytes(w));
    assert forall|i: int| 0 <= i < 64 implies bits[i] == whole[i] by {
        lemma_be_bytes_bits(w, i);
        if at <= i < at + n {
            assert(stream[off + (i - at)] == word_run(w, at as int, n as int)[i - at]);
        } else {
            assert(!word_bit(w, i as u8));
        }
    }
    assert(bits =~= whole);
    lemma_bytes_of_bits(be_bytes(w));
    lemma_be_word_bytes(w);
}

/// Whether a value with the given XOR can be written so that it is read
/// back. It cannot where a new envelope of all 64 bits would be needed: the
/// width of an envelope is written in six bits.
pub open spec fn envelope_fits(env: Option<u64>, xor: u64) -> bool {
    xor == 0 || within_envelope(env, xor) || significant(xor) < 64
}

/// Two bits and a run that stand in the stream as one stand there each at its place.
proof fn lemma_holds_at_flags(stream: Seq<bool>, off: nat, a: bool, b: bool, run: Seq<bool>)
    requires
        holds_at(stream, off, seq![a, b] + run),
    ensures
        read_flag(stream, off) == Ok::<(bool, nat), Fault>((a, off + 1)),
        read_flag(stream, off + 1) == Ok::<(bool, nat), Fault>((b, off + 2)),
        holds_at(stream, off + 2, run),
{
    assert(seq![a, b] =~= seq![a] + seq![b]);
    lemma_holds_at_split(stream, off, seq![a, b], run);
    lemma_holds_at_split(stream, off, seq![a], seq![b]);
    lemma_read_flag(stream, off, a);
    lemma_read_flag(stream, off + 1, b);
}

/// The bits of a word that lies inside an envelope are zero outside the
/// bits that the envelope spans.
proof fn lemma_zero_outside(xor: u64, p: u64)
    requires
        leading(xor) >= leading(p),
        trailing(xor) >= trailing(p),
    ensures
        forall|k: u8|
            k < 64 && !(leading(p) <= k < leading(p) + significant(p)) ==> !word_bit(xor, k),
{
    assert forall|k: u8|
        k < 64 && !(leading(p) <= k < leading(p) + significant(p)) implies !word_bit(xor, k) by {
        lemma_outside_envelope(xor, k);
    }
}

/// Where the parts of a value in the envelope before it are read one by
/// one, the value is read.
proof fn lemma_read_value_within_parts(
    stream: Seq<bool>,
    off: nat,
    p: u64,
    prev: u64,
    xor: u64,
    end: nat,
)
    requires
        p != 0,
        read_flag(stream, off) == Ok::<(bool, nat), Fault>((true, off + 1)),
        read_flag(stream, off + 1) == Ok::<(bool, nat), Fault>((false, off + 2)),
        read_run(stream, off + 2, leading(p), significant(p) as nat) == Ok::<(u64, nat), Fault>(
            (xor, end),
        ),
    ensures
        read_value(stream, off, Some(p), prev) == Ok::<((u64, Option<u64>), nat), Fault>(
            ((prev ^ xor, Some(p)), end),
        ),
{
}

/// A value that was written into the envelope before it is read from there.
proof fn lemma_read_value_within(stream: Seq<bool>, off: nat, p: u64, prev: u64, xor: u64)
    requires
        xor != 0,
        within_envelope(Some(p), xor),
        holds_at(stream, off, value_record(Some(p), xor)),
    ensures
        read_value(stream, off, Some(p), prev) == Ok::<((u64, Option<u64>), nat), Fault>(
            ((prev ^ xor, Some(p)), off + value_record(Some(p), xor).len()),
        ),
{
    lemma_envelope_bounds(xor);
    axiom_u64_leading_zeros(p);
    lemma_envelope_bounds(p);
    let run = word_run(xor, leading(p) as int, significant(p));
    assert(read_run(stream, off + 2, leading(p), significant(p) as nat) == Ok::<(u64, nat), Fault>(
        (xor, (off + 2 + significant(p)) as nat),
    ) && read_flag(stream, off) == Ok::<(bool, nat), Fault>((true, off + 1)) && read_flag(
        stream,
        off + 1,
    ) == Ok::<(bool, nat), Fault>((false, off + 2))) by {
        lemma_holds_at_flags(stream, off, true, false, run);
        lemma_zero_outside(xor, p);
        lemma_read_run(stream, off + 2, xor, leading(p), significant(p) as nat);
    }
    lemma_read_value_within_parts(stream, off, p, prev, xor, (off + 2 + significant(p)) as nat);
}

/// Where the parts of a value with a new envelope are read one by one, the
/// value is read.
proof fn lemma_read_value_new_parts(
    stream: Seq<bool>,
    off: nat,
    env: Option<u64>,
    prev: u64,
    xor: u64,
    lz: u8,
    sig: u8,
    end: nat,
)
    requires
        read_flag(stream, off) == Ok::<(bool, nat), Fault>((true, off + 1)),
        read_flag(stream, off + 1) == Ok::<(bool, nat), Fault>((true, off + 2)),
        read_six(stream, off + 2) == Ok::<(u8, nat), Fault>((lz, off + 8)),
        read_six(stream, off + 8) == Ok::<(u8, nat), Fault>((sig, off + 14)),
        read_run(stream, off + 14, lz as nat, sig as nat) == Ok::<(u64, nat), Fault>((xor, end)),
    ensures
        read_value(stream, off, env, prev) == Ok::<((u64, Option<u64>), nat), Fault>(
            ((prev ^ xor, Some(xor)), end),
        ),
{
}

/// The parts of a value with a new envelope stand in the stream one behind the other.
proof fn lemma_new_envelope_holds(stream: Seq<bool>, off: nat, env: Option<u64>, xor: u64)
    requires
        xor != 0,
        !within_envelope(env, xor),
        holds_at(stream, off, value_record(env, xor)),
    ensures
        read_flag(stream, off) == Ok::<(bool, nat), Fault>((true, off + 1)),
        read_flag(stream, off + 1) == Ok::<(bool, nat), Fault>((true, off + 2)),
        holds_at(stream, off + 2, six_bits(leading(xor) as u8)),
        holds_at(stream, off + 8, six_bits(significant(xor) as u8)),
        holds_at(stream, off + 14, word_run(xor, leading(xor) as int, significant(xor))),
        value_record(env, xor).len() == 14 + significant(xor),
{
    lemma_envelope_bounds(xor);
    let lead_run = six_bits(leading(xor) as u8);
    let sig_run = six_bits(significant(xor) as u8);
    let run = word_run(xor, leading(xor) as int, significant(xor));
    assert(seq![true, true] + lead_run + sig_run + run =~= seq![true, true] + (lead_run + (sig_run
        + run)));
    lemma_holds_at_flags(stream, off, true, true, lead_run + (sig_run + run));
    lemma_holds_at_split(stream, off + 2, lead_run, sig_run + run);
    lemma_holds_at_split(stream, off + 8, sig_run, run);
}

/// A value that was written with a new envelope is read with it.
proof fn lemma_read_value_new(stream: Seq<bool>, off: nat, env: Option<u64>, prev: u64, xor: u64)
    requires
        xor != 0,
        !within_envelope(env, xor),
        significant(xor) < 64,
        holds_at(stream, off, value_record(env, xor)),
    ensures
        read_value(stream, off, env, prev) == Ok::<((u64, Option<u64>), nat), Fault>(
            ((prev ^ xor, Some(xor)), off + value_record(env, xor).len()),
        ),
{
    lemma_envelope_bounds(xor);
    let lz = leading(xor);
    let sig = significant(xor);
    lemma_new_envelope_holds(stream, off, env, xor);
    lemma_read_six(stream, off + 2, lz as u8);
    lemma_read_six(stream, off + 8, sig as u8);
    lemma_zero_outside(xor, xor);
    lemma_read_run(stream, off + 14, xor, lz, sig as nat);
    lemma_read_value_new_parts(
        stream,
        off,
        env,
        prev,
        xor,
        lz as u8,
        sig as u8,
        (off + 14 + sig) as nat,
    );
}

/// A value that stands in the stream is read as it was written, and leaves
/// the envelope that writing it left.
pub proof fn lemma_read_value(stream: Seq<bool>, off: nat, env: Option<u64>, prev: u64, cur: u64)
    requires
        envelope_fits(env, prev ^ cur),
        holds_at(stream, off, value_record(env, prev ^ cur)),
    ensures
        read_value(stream, off, env, prev) == Ok::<((u64, Option<u64>), nat), Fault>(
            ((cur, envelope_after(env, prev ^ cur)), off + value_record(env, prev ^ cur).len()),
        ),
{
    let xor = prev ^ cur;
    lemma_xor(prev, cur);
    if xor == 0 {
        lemma_read_flag(stream, off, false);
    } else if within_envelope(env, xor) {
        lemma_read_value_within(stream, off, env->0, prev, xor);
    } else {
        lemma_read_value_new(stream, off, env, prev, xor);
    }
}

/// Adding the difference of two values to the second gives the first, in
/// two's complement.
pub proof fn lemma_delta_round_trip(cur: u64, prev: u64)
    ensures
        delta_sum(prev, signed_delta(cur, prev)) == cur,
{
}

/// Whether sample `m` can be written after state `s` so that it is read
/// back: its value must be one that can.
pub open spec fn sample_fits(s: CodecState, m: Measurement) -> bool {
    s.idx == 0 || envelope_fits(s.last_xor, s.last_measurement->0.value_bits ^ m.value_bits)
}

/// The 64 bits of a value that stand in the stream are read as that value.
proof fn lemma_read_word(stream: Seq<bool>, off: nat, w: u64)
    requires
        holds_at(stream, off, bits_of(be_bytes(w))),
    ensures
        read_run(stream, off, 0, 64) == Ok::<(u64, nat), Fault>((w, off + 64)),
{
    assert(word_run(w, 0, 64) =~= bits_of(be_bytes(w)));
    lemma_read_run(stream, off, w, 0, 64);
}

/// A first sample that stands in the stream is read as it was written.
proof fn lemma_read_first(stream: Seq<bool>, s: CodecState, m: Measurement)
    requires
        s.idx == 0,
        holds_at(stream, s.bit_offset, first_record(m)),
    ensures
        read_first(stream, s) == Ok::<(Measurement, CodecState), Fault>((m, state_after(s, m))),
{
    let ts_run = varint_record(m.timestamp);
    let count_run = varint_record(m.count);
    let value_run = bits_of(be_bytes(m.value_bits));
    lemma_holds_at_split(stream, s.bit_offset, ts_run + count_run, value_run);
    lemma_holds_at_split(stream, s.bit_offset, ts_run, count_run);
    lemma_read_varint(stream, s.bit_offset, m.timestamp);
    lemma_read_varint(stream, s.bit_offset + ts_run.len(), m.count);
    lemma_read_word(stream, s.bit_offset + ts_run.len() + count_run.len(), m.value_bits);
}

/// The timestamp of a later sample that stands in the stream is read as the
/// delta it was written from.
proof fn lemma_read_timestamp(stream: Seq<bool>, s: CodecState, prev: Measurement, m: Measurement)
    requires
        s.idx >= 1,
        holds_at(stream, s.bit_offset, timestamp_record(s, prev, m)),
    ensures
        read_timestamp_delta(stream, s) == Ok::<(i64, nat), Fault>(
            (
                signed_delta(m.timestamp, prev.timestamp),
                s.bit_offset + timestamp_record(s, prev, m).len(),
            ),
        ),
{
    let td = signed_delta(m.timestamp, prev.timestamp);
    if s.idx == 1 {
        lemma_read_delta(stream, s.bit_offset, td);
    } else {
        lemma_read_optional_delta(stream, s.bit_offset, td != s.last_timestamp_delta, td);
    }
}

/// Where the parts of a later sample are read one by one, the sample is read.
proof fn lemma_read_next_parts(
    stream: Seq<bool>,
    s: CodecState,
    prev: Measurement,
    m: Measurement,
    t: CodecState,
    td: i64,
    at_count: nat,
    cd: Option<i64>,
    at_value: nat,
)
    requires
        read_timestamp_delta(stream, s) == Ok::<(i64, nat), Fault>((td, at_count)),
        read_optional_delta(stream, at_count) == Ok::<(Option<i64>, nat), Fault>((cd, at_value)),
        read_value(stream, at_value, s.last_xor, prev.value_bits) == Ok::<
            ((u64, Option<u64>), nat),
            Fault,
        >(((m.value_bits, t.last_xor), t.bit_offset)),
        m.timestamp == delta_sum(prev.timestamp, td),
        m.count == match cd {
            Some(d) => delta_sum(prev.count, d),
            None => prev.count,
        },
        t.idx == s.idx + 1,
        t.last_timestamp_delta == td,
        t.last_measurement == Some(m),
    ensures
        read_next(stream, s, prev) == Ok::<(Measurement, CodecState), Fault>((m, t)),
{
}

/// The records of a later sample stand in the stream one behind the other.
proof fn lemma_next_holds(stream: Seq<bool>, s: CodecState, prev: Measurement, m: Measurement)
    requires
        s.idx >= 1,
        s.last_measurement == Some(prev),
        holds_at(stream, s.bit_offset, sample_record(s, m)),
    ensures
        holds_at(stream, s.bit_offset, timestamp_record(s, prev, m)),
        holds_at(
            stream,
            s.bit_offset + timestamp_record(s, prev, m).len(),
            count_record(prev, m),
        ),
        holds_at(
            stream,
            s.bit_offset + timestamp_record(s, prev, m).len() + count_record(prev, m).len(),
            value_record(s.last_xor, prev.value_bits ^ m.value_bits),
        ),
        state_after(s, m) == (CodecState {
            idx: s.idx + 1,
            bit_offset: s.bit_offset + timestamp_record(s, prev, m).len() + count_record(
                prev,
                m,
            ).len() + value_record(s.last_xor, prev.value_bits ^ m.value_bits).len(),
            last_timestamp_delta: signed_delta(m.timestamp, prev.timestamp),
            last_measurement: Some(m),
            last_xor: envelope_after(s.last_xor, prev.value_bits ^ m.value_bits),
        }),
{
    let ts_run = timestamp_record(s, prev, m);
    let count_run = count_record(prev, m);
    let value_run = value_record(s.last_xor, prev.value_bits ^ m.value_bits);
    lemma_holds_at_split(stream, s.bit_offset, ts_run + count_run, value_run);
    lemma_holds_at_split(stream, s.bit_offset, ts_run, count_run);
}

/// The count of a later sample that stands in the stream is read as the
/// count it was written from.
proof fn lemma_read_count(stream: Seq<bool>, off: nat, prev: Measurement, m: Measurement)
    requires
        holds_at(stream, off, count_record(prev, m)),
    ensures
        read_optional_delta(stream, off) matches Ok((cd, next)) && next == off + count_record(
            prev,
            m,
        ).len() && m.count == match cd {
            Some(d) => delta_sum(prev.count, d),
            None => prev.count,
        },
{
    let cd = signed_delta(m.count, prev.count);
    lemma_read_optional_delta(stream, off, cd != 0, cd);
    lemma_delta_round_trip(m.count, prev.count);
}

/// A later sample that stands in the stream is read as it was written.
proof fn lemma_read_next(stream: Seq<bool>, s: CodecState, prev: Measurement, m: Measurement)
    requires
        s.idx >= 1,
        s.last_measurement == Some(prev),
        sample_fits(s, m),
        holds_at(stream, s.bit_offset, sample_record(s, m)),
    ensures
        read_next(stream, s, prev) == Ok::<(Measurement, CodecState), Fault>(
            (m, state_after(s, m)),
        ),
{
    let at_count = s.bit_offset + timestamp_record(s, prev, m).len();
    let at_value = at_count + count_record(prev, m).len();
    lemma_next_holds(stream, s, prev, m);
    lemma_read_timestamp(stream, s, prev, m);
    lemma_read_count(stream, at_count, prev, m);
    lemma_read_value(stream, at_value, s.last_xor, prev.value_bits, m.value_bits);
    lemma_delta_round_trip(m.timestamp, prev.timestamp);
    lemma_read_next_parts(
        stream,
        s,
        prev,
        m,
        state_after(s, m),
        signed_delta(m.timestamp, prev.timestamp),
        at_count,
        read_optional_delta(stream, at_count)->Ok_0.0,
        at_value,
    );
}

/// Reading gives back what was written: where the bits that stand for a
/// sample after state `s` stand in the stream at the position of `s`, the
/// sample is read there, and reading leaves the state that writing left.
///
/// This holds of every sample but one whose value needs a new envelope of
/// all 64 bits.
pub proof fn lemma_sample_round_trip(stream: Seq<bool>, s: CodecState, m: Measurement)
    requires
        can_follow(s),
        sample_fits(s, m),
        holds_at(stream, s.bit_offset, sample_record(s, m)),
    ensures
        read_sample(stream, s) == Ok::<(Measurement, CodecState), Fault>((m, state_after(s, m))),
{
    reveal(read_sample);
    if s.idx == 0 {
        lemma_read_first(stream, s, m);
    } else {
        lemma_read_next(stream, s, s.last_measurement->0, m);
    }
}

/// What was written to a buffer stands in its stream, as far as it fits there.
pub proof fn lemma_written_holds(
    before: Seq<u8>,
    after: Seq<u8>,
    off: nat,
    run: Seq<bool>,
    tail: Seq<bool>,
)
    requires
        written(before, after, off, run + tail),
        off + run.len() <= stream_of(before).len(),
    ensures
        holds_at(stream_of(after), off, run),
{
    let whole = run + tail;
    assert(bits_of(after).len() == bits_of(before).len());
    assert forall|i: int| 0 <= i < run.len() implies stream_of(after)[off + i] == run[i] by {
        assert(bits_of(after)[off + i] == whole[i]);
    }
}

/// What was written to a buffer is read from it: where a sample after
/// state `s` has been put into a buffer at the position of `s`, and its
/// record fits into the stream, the sample is read from the buffer in state `s`.
pub proof fn lemma_written_sample_is_read(
    before: Seq<u8>,
    after: Seq<u8>,
    s: CodecState,
    m: Measurement,
)
    requires
        can_follow(s),
        sample_fits(s, m),
        s.bit_offset + sample_record(s, m).len() <= stream_of(before).len(),
        written(before, after, s.bit_offset, sample_image(s, m)),
    ensures
        read_sample(stream_of(after), s) == Ok::<(Measurement, CodecState), Fault>(
            (m, state_after(s, m)),
        ),
{
    lemma_written_holds(
        before,
        after,
        s.bit_offset,
        sample_record(s, m),
        padding(s.bit_offset + sample_record(s, m).len()),
    );
    lemma_sample_round_trip(stream_of(after), s, m);
}

/// The state after the samples `ms` have been written to a fresh stream, one after another.
#[verifier::opaque]
pub open spec fn state_after_all(ms: Seq<Measurement>) -> CodecState
    decreases ms.len(),
{
    if ms.len() == 0 {
        CodecState::fresh()
    } else {
        state_after(state_after_all(ms.drop_last()), ms.last())
    }
}

/// The stream that stands for the samples `ms`: their records, one after another.
#[verifier::opaque]
pub open spec fn stream_for(ms: Seq<Measurement>) -> Seq<bool>
    decreases ms.len(),
{
    if ms.len() == 0 {
        Seq::empty()
    } else {
        stream_for(ms.drop_last()) + sample_record(state_after_all(ms.drop_last()), ms.last())
    }
}

/// The first `n` samples that are read from `stream` from state `s` on, and
/// the state after them.
#[verifier::opaque]
pub open spec fn read_samples(stream: Seq<bool>, s: CodecState, n: nat) -> Result<
    (Seq<Measurement>, CodecState),
    Fault,
>
    decreases n,
{
    if n == 0 {
        Ok((Seq::empty(), s))
    } else {
        match read_samples(stream, s, (n - 1) as nat) {
            Err(f) => Err(f),
            Ok((ms, t)) => match read_sample(stream, t) {
                Err(f) => Err(f),
                Ok((m, u)) => Ok((ms.push(m), u)),
            },
        }
    }
}

/// Whether no value of `ms` differs from the value before it in both the
/// highest and the lowest of its 64 bits.
pub open spec fn no_full_width_xor(ms: Seq<Measurement>) -> bool {
    forall|k: int|
        1 <= k < ms.len() ==> significant(#[trigger] ms[k].value_bits ^ ms[k - 1].value_bits) < 64
}

/// The state after some samples counts them, stands behind their stream and
/// holds the last of them.
pub proof fn lemma_state_after_all(ms: Seq<Measurement>)
    ensures
        state_after_all(ms).idx == ms.len(),
        state_after_all(ms).bit_offset == stream_for(ms).len(),
        ms.len() > 0 ==> state_after_all(ms).last_measurement == Some(ms.last()),
        can_follow(state_after_all(ms)),
    decreases ms.len(),
{
    reveal(state_after_all);
    reveal(stream_for);
    if ms.len() > 0 {
        lemma_state_after_all(ms.drop_last());
    }
}

/// What holds of a sequence of samples holds of it without its last sample.
proof fn lemma_no_full_width_xor_init(ms: Seq<Measurement>)
    requires
        no_full_width_xor(ms),
        ms.len() > 0,
    ensures
        no_full_width_xor(ms.drop_last()),
{
    let init = ms.drop_last();
    assert forall|k: int| 1 <= k < init.len() implies significant(
        #[trigger] init[k].value_bits ^ init[k - 1].value_bits,
    ) < 64 by {
        assert(init[k] == ms[k] && init[k - 1] == ms[k - 1]);
    }
}

/// The last of some samples can be written after the others so that it is read back.
proof fn lemma_last_fits(ms: Seq<Measurement>)
    requires
        no_full_width_xor(ms),
        ms.len() > 0,
    ensures
        sample_fits(state_after_all(ms.drop_last()), ms.last()),
{
    let init = ms.drop_last();
    lemma_state_after_all(init);
    if init.len() > 0 {
        let k = ms.len() - 1;
        assert(ms[k - 1] == init.last());
        assert(ms[k] == ms.last());
        lemma_xor(init.last().value_bits, ms.last().value_bits);
        assert(significant(ms[k].value_bits ^ ms[k - 1].value_bits) < 64);
    }
}

/// Where the stream of some samples stands at the front of a stream, so
/// does the stream of all but the last of them, and the record of the last
/// stands behind it.
proof fn lemma_last_holds(ms: Seq<Measurement>, stream: Seq<bool>)
    requires
        ms.len() > 0,
        stream_for(ms).is_prefix_of(stream),
    ensures
        stream_for(ms.drop_last()).is_prefix_of(stream),
        holds_at(
            stream,
            state_after_all(ms.drop_last()).bit_offset,
            sample_record(state_after_all(ms.drop_last()), ms.last()),
        ),
{
    reveal(stream_for);
    let init = ms.drop_last();
    let s = state_after_all(init);
    let record = sample_record(s, ms.last());
    lemma_state_after_all(init);
    assert(stream_for(ms) == stream_for(init) + record);
    assert forall|i: int| 0 <= i < record.len() implies stream[s.bit_offset + i] == record[i] by {
        assert(stream_for(ms)[s.bit_offset + i] == record[i]);
    }
    assert forall|i: int| 0 <= i < stream_for(init).len() implies stream_for(init)[i]
        == stream[i] by {
        assert(stream_for(ms)[i] == stream_for(init)[i]);
    }
}

/// Reading one more sample behind some others adds it to them.
proof fn lemma_read_one_more(
    stream: Seq<bool>,
    n: nat,
    init: Seq<Measurement>,
    s: CodecState,
    m: Measurement,
    t: CodecState,
)
    requires
        read_samples(stream, CodecState::fresh(), n) == Ok::<
            (Seq<Measurement>, CodecState),
            Fault,
        >((init, s)),
        read_sample(stream, s) == Ok::<(Measurement, CodecState), Fault>((m, t)),
    ensures
        read_samples(stream, CodecState::fresh(), n + 1) == Ok::<
            (Seq<Measurement>, CodecState),
            Fault,
        >((init.push(m), t)),
{
    reveal(read_samples);
}

/// The last of some samples is read from their stream behind the others.
proof fn lemma_last_read(ms: Seq<Measurement>, stream: Seq<bool>)
    requires
        no_full_width_xor(ms),
        ms.len() > 0,
        stream_for(ms).is_prefix_of(stream),
    ensures
        read_sample(stream, state_after_all(ms.drop_last())) == Ok::<
            (Measurement, CodecState),
            Fault,
        >((ms.last(), state_after_all(ms))),
{
    reveal(state_after_all);
    lemma_last_holds(ms, stream);
    lemma_last_fits(ms);
    lemma_state_after_all(ms.drop_last());
    lemma_sample_round_trip(stream, state_after_all(ms.drop_last()), ms.last());
}

/// Decoding after encoding gives every sample back: from a stream that
/// starts with the stream of the samples `ms`, reading as many samples as
/// were written gives `ms`, and leaves the state that writing left.
///
/// This holds of every sequence of samples but those in which a value
/// differs from the value before it in both the highest and the lowest bit.
pub proof fn lemma_stream_round_trip(ms: Seq<Measurement>, stream: Seq<bool>)
    requires
        no_full_width_xor(ms),
        stream_for(ms).is_prefix_of(stream),
    ensures
        read_samples(stream, CodecState::fresh(), ms.len()) == Ok::<
            (Seq<Measurement>, CodecState),
            Fault,
        >((ms, state_after_all(ms))),
    decreases ms.len(),
{
    if ms.len() > 0 {
        let init = ms.drop_last();
        lemma_no_full_width_xor_init(ms);
        lemma_last_holds(ms, stream);
        lemma_stream_round_trip(init, stream);
        lemma_last_read(ms, stream);
        lemma_read_one_more(
            stream,
            init.len(),
            init,
            state_after_all(init),
            ms.last(),
            state_after_all(ms),
        );
        assert(init.push(ms.last()) =~= ms);
    } else {
        reveal(read_samples);
        reveal(state_after_all);
        assert(ms =~= Seq::<Measurement>::empty());
    }
}

/// Encoding extends the stream: where a buffer holds the stream of the
/// samples `ms` up to the position of the state after them, and the next
/// sample is written there, the buffer holds the stream of all of them.
pub proof fn lemma_stream_extended(
    before: Seq<u8>,
    after: Seq<u8>,
    ms: Seq<Measurement>,
    m: Measurement,
)
    requires
        stream_for(ms).is_prefix_of(stream_of(before)),
        stream_for(ms).len() + sample_record(state_after_all(ms), m).len() <= stream_of(
            before,
        ).len(),
        written(before, after, stream_for(ms).len(), sample_image(state_after_all(ms), m)),
    ensures
        stream_for(ms.push(m)).is_prefix_of(stream_of(after)),
        state_after_all(ms.push(m)) == state_after(state_after_all(ms), m),
{
    reveal(state_after_all);
    reveal(stream_for);
    lemma_state_after_all(ms);
    let grown = ms.push(m);
    assert(grown.drop_last() =~= ms);
    assert(grown.last() == m);
    let s = state_after_all(ms);
    let record = sample_record(s, m);
    let image = sample_image(s, m);
    let whole = stream_for(grown);
    assert(whole == stream_for(ms) + record);
    assert(bits_of(after).len() == bits_of(before).len());
    assert forall|i: int| 0 <= i < whole.len() implies whole[i] == stream_of(after)[i] by {
        assert(bits_of(after)[i] == overlay(
            bits_of(before),
            stream_for(ms).len() as int,
            image,
            0,
            image.len() as int,
        )[i]);
        if i < stream_for(ms).len() {
            assert(stream_of(before)[i] == stream_for(ms)[i]);
        } else {
            assert(image[i - stream_for(ms).len()] == record[i - stream_for(ms).len()]);
        }
    }
}

} // verus!
