//! Variable-length integers: unsigned 64-bit values as base-128 groups,
//! least significant group first, with the high bit of a byte saying that
//! another byte follows. Signed values are folded to unsigned ones by zigzag.

use vstd::prelude::*;

verus! {

/// A varint did not fit into the buffer, or the buffer ended before the varint did.
#[derive(Debug)]
pub struct VarIntError;

/// The bytes that encode `v`: one byte per 7-bit group, least significant
/// group first, every byte but the last with its high bit set.
pub open spec fn varint_bytes(v: nat) -> Seq<u8>
    decreases v,
{
    if v < 128 {
        seq![v as u8]
    } else {
        seq![(128 + v % 128) as u8] + varint_bytes(v / 128)
    }
}

/// The number that the low seven bits of each byte spell, least significant group first.
pub open spec fn groups_value(bytes: Seq<u8>) -> nat
    decreases bytes.len(),
{
    if bytes.len() == 0 {
        0
    } else {
        (bytes[0] % 128) as nat + 128 * groups_value(bytes.drop_first())
    }
}

/// Whether the first `n` bytes of `buf` form one varint: the byte at `n - 1`
/// is the first whose high bit is clear.
pub open spec fn ends_at(buf: Seq<u8>, n: nat) -> bool {
    &&& 1 <= n <= buf.len()
    &&& buf[n - 1] < 128
    &&& forall|i: int| 0 <= i < n - 1 ==> buf[i] >= 128
}

/// Whether no byte of `buf` ends a varint.
pub open spec fn unterminated(buf: Seq<u8>) -> bool {
    forall|i: int| 0 <= i < buf.len() ==> buf[i] >= 128
}

/// `128` to the power `n`.
pub open spec fn pow128(n: nat) -> nat
    decreases n,
{
    if n == 0 {
        1
    } else {
        128 * pow128((n - 1) as nat)
    }
}

/// A varint has at least one byte and never more than are needed for its value.
pub proof fn lemma_varint_len(v: nat)
    ensures
        varint_bytes(v).len() >= 1,
        v < pow128(varint_bytes(v).len()),
        varint_bytes(v).len() > 1 ==> v >= pow128((varint_bytes(v).len() - 1) as nat),
    decreases v,
{
    if v >= 128 {
        lemma_varint_len(v / 128);
    } else {
        assert(pow128(1) == 128 * pow128(0));
    }
}

/// A value below `128` to the `k` needs at most `k` bytes.
pub proof fn lemma_varint_len_bound(v: nat, k: nat)
    requires
        k >= 1,
        v < pow128(k),
    ensures
        varint_bytes(v).len() <= k,
    decreases k,
{
    if v >= 128 {
        assert(pow128(1) == 128 * pow128(0));
        lemma_varint_len_bound(v / 128, (k - 1) as nat);
    }
}

/// The varint of a 64-bit value has at most ten bytes.
pub proof fn lemma_varint_len_u64(v: u64)
    ensures
        1 <= varint_bytes(v as nat).len() <= 10,
{
    reveal_with_fuel(pow128, 11);
    lemma_varint_len(v as nat);
    lemma_varint_len_bound(v as nat, 10);
}

/// Writes the varint of `val` to the front of `buf` and returns its length.
/// The bytes behind it keep their value.
///
/// Fails when `buf` is shorter than the varint; `buf` then holds the bytes
/// of the varint that did fit.
pub fn encode(val: u64, buf: &mut [u8]) -> (r: Result<usize, VarIntError>)
    ensures
        final(buf)@.len() == old(buf)@.len(),
        r is Ok <==> varint_bytes(val as nat).len() <= old(buf)@.len(),
        r matches Ok(n) ==> n == varint_bytes(val as nat).len() && final(buf)@ == varint_bytes(
            val as nat,
        ) + old(buf)@.skip(n as int),
        r is Err ==> final(buf)@ == varint_bytes(val as nat).take(old(buf)@.len() as int),
{
    let mut byte: u8;
    let mut idx: usize = 0;
    let ghost whole = varint_bytes(val as nat);

    let mut rest = val;
    while rest >= 128
        invariant
            idx <= buf@.len(),
            buf@.len() == old(buf)@.len(),
            whole == varint_bytes(val as nat),
            whole == buf@.take(idx as int) + varint_bytes(rest as nat),
            buf@.skip(idx as int) == old(buf)@.skip(idx as int),
        decreases rest,
    {
        if idx >= buf.len() {
            proof {
                lemma_varint_len(rest as nat);
                assert(buf@.take(idx as int) == buf@);
                assert(whole.take(buf@.len() as int) =~= buf@);
            }
            return Err(VarIntError {  });
        }
        assert((0x80 | (rest & 0x7f)) == 128 + rest % 128) by (bit_vector);
        assert(rest >> 7 == rest / 128) by (bit_vector);
        byte = (0x80 | (rest & 0x7f)) as u8;
        let ghost before = buf@;
        buf[idx] = byte;
        proof {
            assert(buf@.take(idx + 1) =~= before.take(idx as int) + seq![byte]);
            assert(varint_bytes(rest as nat) == seq![byte] + varint_bytes((rest / 128) as nat));
            assert(buf@.skip(idx + 1) =~= before.skip(idx as int).skip(1));
            assert(old(buf)@.skip(idx + 1) =~= old(buf)@.skip(idx as int).skip(1));
        }
        rest >>= 7;
        idx += 1;
    }

    if idx >= buf.len() {
        proof {
            assert(buf@.take(idx as int) == buf@);
            assert(whole.take(buf@.len() as int) =~= buf@);
        }
        return Err(VarIntError {  });
    }
    byte = rest as u8;
    let ghost before = buf@;
    buf[idx] = byte;
    proof {
        assert(buf@.take(idx + 1) =~= before.take(idx as int) + seq![byte]);
        assert(buf@.skip(idx + 1) =~= before.skip(idx as int).skip(1));
        assert(old(buf)@.skip(idx + 1) =~= old(buf)@.skip(idx as int).skip(1));
        assert(buf@ =~= buf@.take(idx + 1) + buf@.skip(idx + 1));
    }

    Ok(idx + 1)
}

/// Appending a byte adds its group at the next higher place.
pub proof fn lemma_groups_push(bytes: Seq<u8>, b: u8)
    ensures
        groups_value(bytes.push(b)) == groups_value(bytes) + (b % 128) * pow128(bytes.len()),
    decreases bytes.len(),
{
    let g = (b % 128) as nat;
    if bytes.len() == 0 {
        assert(bytes.push(b).drop_first() =~= bytes);
        assert(groups_value(bytes.push(b)) == g + 128 * groups_value(bytes));
        assert(groups_value(bytes) == 0);
        assert(pow128(0) == 1);
    } else {
        let tail = bytes.drop_first();
        let h = (bytes[0] % 128) as nat;
        assert(bytes.push(b).drop_first() =~= tail.push(b));
        assert(bytes.push(b)[0] == bytes[0]);
        lemma_groups_push(tail, b);
        assert(groups_value(bytes.push(b)) == h + 128 * groups_value(tail.push(b)));
        assert(groups_value(bytes) == h + 128 * groups_value(tail));
        assert(pow128(bytes.len()) == 128 * pow128(tail.len()));
        assert(128 * (g * pow128(tail.len())) == g * (128 * pow128(tail.len())))
            by (nonlinear_arith);
    }
}

/// Adding one more group to the groups read so far. `low` holds the 64 low
/// bits of their value `acc`, the next group has the place value `scale`,
/// and `shift` is the number of bits below that place, or 70 once the place
/// lies beyond the 64 bits. OR-ing the shifted group into `low` then gives
/// the 64 low bits of the new value, and nothing is added beyond the 64 bits.
proof fn lemma_group_added(low: u64, group: u64, shift: u64, places: nat, acc: nat, scale: nat)
    requires
        group < 128,
        acc < scale,
        low == acc % 0x1_0000_0000_0000_0000,
        places <= 9 ==> shift == 7 * places && scale == (1u64 << shift),
        places >= 10 ==> shift == 70 && scale % 0x1_0000_0000_0000_0000 == 0,
    ensures
        (if shift < 64 {
            low | (group << shift)
        } else {
            low
        }) == (acc + group * scale) % 0x1_0000_0000_0000_0000,
        acc + group * scale < 128 * scale,
        places + 1 <= 9 ==> 128 * scale == (1u64 << ((shift + 7) as u64)),
        places + 1 >= 10 ==> (128 * scale) % 0x1_0000_0000_0000_0000 == 0,
{
    assert(group * scale + acc < 128 * scale) by (nonlinear_arith)
        requires
            group < 128,
            acc < scale,
    ;
    if places <= 8 {
        let p: u64 = 1u64 << shift;
        assert((low | (group << shift)) == low + group * p && p <= 0x0100_0000_0000_0000 && (1u64
            << ((shift + 7) as u64)) == 128 * p) by (bit_vector)
            requires
                shift <= 56,
                p == 1u64 << shift,
                low < p,
                group < 128,
        ;
    } else if places == 9 {
        assert((1u64 << 63u64) == 0x8000_0000_0000_0000) by (bit_vector);
        assert((low | (group << 63u64)) == low + (group % 2) * 0x8000_0000_0000_0000)
            by (bit_vector)
            requires
                low < 0x8000_0000_0000_0000,
                group < 128,
        ;
        assert(acc + group * scale == acc + group * 0x8000_0000_0000_0000);
    } else {
        let q = scale / 0x1_0000_0000_0000_0000;
        assert(group * scale == 0x1_0000_0000_0000_0000 * (group * q)) by (nonlinear_arith)
            requires
                scale == 0x1_0000_0000_0000_0000 * q,
        ;
        vstd::arithmetic::div_mod::lemma_mod_multiples_vanish(
            (group * q) as int,
            acc as int,
            0x1_0000_0000_0000_0000,
        );
        assert(low == (acc + group * scale) % 0x1_0000_0000_0000_0000);
    }
}

/// Reads the varint at the front of `buf`: its value and its length in bytes.
/// Groups beyond the 64th bit do not count.
///
/// Fails when no byte of `buf` has its high bit clear.
pub fn decode(buf: &[u8]) -> (r: Result<(u64, usize), VarIntError>)
    ensures
        r is Err <==> unterminated(buf@),
        r matches Ok((v, n)) ==> ends_at(buf@, n as nat) && v == groups_value(buf@.take(n as int))
            % 0x1_0000_0000_0000_0000,
{
    let mut idx: usize = 0;
    let mut val = 0u64;
    let mut shift = 0u64;
    // The value of the groups read so far, and the place value of the next group.
    let ghost mut acc: nat = 0;
    let ghost mut scale: nat = 1;

    proof {
        assert(1u64 << 0u64 == 1) by (bit_vector);
        assert(buf@.take(0) =~= Seq::<u8>::empty());
    }
    loop
        invariant_except_break
            idx <= buf@.len(),
            forall|i: int| 0 <= i < idx ==> buf@[i] >= 128,
            acc == groups_value(buf@.take(idx as int)),
            scale == pow128(idx as nat),
            acc < scale,
            val == acc % 0x1_0000_0000_0000_0000,
            idx <= 9 ==> shift == 7 * idx && scale == (1u64 << shift),
            idx >= 10 ==> shift == 70 && scale % 0x1_0000_0000_0000_0000 == 0,
        ensures
            idx < buf.len(),
            ends_at(buf@, (idx + 1) as nat),
            val == groups_value(buf@.take(idx + 1)) % 0x1_0000_0000_0000_0000,
        decreases buf@.len() - idx,
    {
        if idx >= buf.len() {
            return Err(VarIntError {  });
        }
        let byte = buf[idx];
        let group: u64 = (byte & 0x7f) as u64;
        proof {
            assert(byte & 0x7f == byte % 128) by (bit_vector);
            lemma_group_added(val, group, shift, idx as nat, acc, scale);
            lemma_groups_push(buf@.take(idx as int), byte);
            assert(buf@.take(idx + 1) =~= buf@.take(idx as int).push(byte));
            acc = acc + group as nat * scale;
            scale = 128 * scale;
        }
        // A group beyond the 64 bits has no bit to give.
        if shift < 64 {
            val |= group << shift;
        }
        if byte < 128 {
            break ;
        }
        if shift < 64 {
            shift += 7;
        }
        idx += 1;
    }

    Ok((val, idx + 1))
}

/// The zigzag image of a signed value: `0, -1, 1, -2, 2, ...` become `0, 1, 2, 3, 4, ...`.
pub open spec fn zigzag(x: i64) -> u64 {
    if x >= 0 {
        (2 * x) as u64
    } else {
        (-2 * x - 1) as u64
    }
}

/// The signed value of which `u` is the zigzag image.
pub open spec fn unzigzag(u: u64) -> i64 {
    if u % 2 == 0 {
        (u / 2) as i64
    } else {
        (-(u / 2) - 1) as i64
    }
}

/// Folds a signed value to an unsigned one, small magnitudes to small values.
pub fn encode_zigzag(val: i64) -> (r: u64)
    ensures
        r == zigzag(val),
{
    let uval_l = #[verifier::truncate] (val as u64);
    let uval_r = #[verifier::truncate] ((val >> 63) as u64);
    assert(((val as u64) << 1) ^ ((val >> 63) as u64) == (if val >= 0 {
        2 * val
    } else {
        -2 * val - 1
    })) by (bit_vector);
    return (uval_l << 1) ^ uval_r;
}

/// Unfolds a zigzag image to the signed value it stands for.
pub fn decode_zigzag(val: u64) -> (r: i64)
    ensures
        r == unzigzag(val),
{
    let ival_l = (val >> 1) as i64;
    let ival_r = (val & 1) as i64;
    assert(val >> 1 <= 0x7fff_ffff_ffff_ffff) by (bit_vector);
    assert(val & 1 <= 1) by (bit_vector);
    assert(val % 2 == 0 ==> ((val >> 1) as i64) ^ (-((val & 1) as i64)) as i64 == val / 2)
        by (bit_vector);
    assert(val % 2 != 0 ==> ((val >> 1) as i64) ^ (-((val & 1) as i64)) as i64 == -(val / 2) - 1)
        by (bit_vector);
    return ival_l ^ -(ival_r);
}

/// Unfolding a folded value gives the value back.
pub proof fn lemma_zigzag_round_trip(x: i64)
    ensures
        unzigzag(zigzag(x)) == x,
{
}

/// Folding an unfolded image gives the image back: zigzag is one-to-one and onto.
pub proof fn lemma_unzigzag_round_trip(u: u64)
    ensures
        zigzag(unzigzag(u)) == u,
{
}

/// The bytes of a varint form one varint and spell the value they were made from.
pub proof fn lemma_varint_bytes_value(v: nat)
    ensures
        ends_at(varint_bytes(v), varint_bytes(v).len()),
        groups_value(varint_bytes(v)) == v,
    decreases v,
{
    let bytes = varint_bytes(v);
    if v >= 128 {
        let tail = varint_bytes(v / 128);
        lemma_varint_bytes_value(v / 128);
        assert(bytes.drop_first() =~= tail);
        assert forall|i: int| 0 <= i < bytes.len() - 1 implies bytes[i] >= 128 by {
            if i > 0 {
                assert(bytes[i] == tail[i - 1]);
            }
        }
        assert(bytes[bytes.len() - 1] == tail[tail.len() - 1]);
    } else {
        assert(bytes.drop_first() =~= Seq::<u8>::empty());
        assert(groups_value(bytes.drop_first()) == 0);
    }
}

/// Decoding what was encoded gives the value and the length back, whatever
/// follows the varint in the buffer: a buffer that starts with the varint of
/// `v` holds one varint of that length, and its groups spell `v`. The length
/// is the least number of 7-bit groups that hold `v`, and at most ten.
pub proof fn lemma_varint_round_trip(v: u64, buf: Seq<u8>)
    requires
        varint_bytes(v as nat).is_prefix_of(buf),
    ensures
        ends_at(buf, varint_bytes(v as nat).len()),
        groups_value(buf.take(varint_bytes(v as nat).len() as int)) % 0x1_0000_0000_0000_0000 == v,
        1 <= varint_bytes(v as nat).len() <= 10,
        v < pow128(varint_bytes(v as nat).len()),
        varint_bytes(v as nat).len() > 1 ==> v >= pow128(
            (varint_bytes(v as nat).len() - 1) as nat,
        ),
{
    let bytes = varint_bytes(v as nat);
    lemma_varint_bytes_value(v as nat);
    lemma_varint_len(v as nat);
    lemma_varint_len_u64(v);
    assert(buf.take(bytes.len() as int) =~= bytes);
    assert forall|i: int| 0 <= i < bytes.len() implies buf[i] == bytes[i] by {}
}

/// A buffer holds at most one varint at its front: two lengths that both end one are equal.
pub proof fn lemma_ends_at_unique(buf: Seq<u8>, n: nat, m: nat)
    requires
        ends_at(buf, n),
        ends_at(buf, m),
    ensures
        n == m,
{
    if n < m {
        assert(buf[n - 1] >= 128);
    } else if m < n {
        assert(buf[m - 1] >= 128);
    }
}

} // verus!
