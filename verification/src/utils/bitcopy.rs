//! Copying runs of bits between byte buffers at arbitrary bit offsets.

use vstd::prelude::*;
use crate::utils::bits::{
    bit_at, bits_of, blend_head, blend_tail, blend_within, byte_bit, extract, lemma_bits_ext,
    lemma_bits_of_zero_one, lemma_blend_head, lemma_blend_tail, lemma_blend_within,
    lemma_byte_ext, low_mask, overlay,
};

verus! {

/// A bit copy would have read or written past the end of a buffer.
#[derive(Debug)]
pub struct BitCopyError;

/// The value of a single bit.
#[derive(Copy, Clone, Debug, Eq, PartialEq, Structural)]
pub enum BitValue {
    Zero,
    One,
}

impl BitValue {
    /// The bit as a truth value: `One` is `true`.
    pub open spec fn is_set(self) -> bool {
        self == BitValue::One
    }
}

/// Whether a run of `nbits` bits at bit offset `off` lies inside a buffer of `len` bytes.
pub open spec fn run_fits(len: nat, off: nat, nbits: nat) -> bool {
    off + nbits <= 8 * len
}

/// Whether a copy touches only bits that exist. An empty copy touches none.
pub open spec fn copy_fits(
    dst_len: nat,
    src_len: nat,
    nbits: nat,
    dst_off: nat,
    src_off: nat,
) -> bool {
    nbits == 0 || (run_fits(dst_len, dst_off, nbits) && run_fits(src_len, src_off, nbits))
}

/// The mask that selects the low `bits` bits of a byte.
fn bitmask_lower(bits: usize) -> (r: Result<u8, BitCopyError>)
    ensures
        r is Ok <==> bits <= 8,
        r is Ok ==> r->Ok_0 == low_mask(bits as u8),
{
    if bits > 8 {
        return Err(BitCopyError);
    }
    if bits == 8 {
        Ok(0xFF)
    } else {
        let b: u8 = bits as u8;
        assert((1u8 << b) >= 1) by (bit_vector)
            requires
                b < 8,
        ;
        Ok((0x01u8 << b) - 1)
    }
}

/// Sets the bit at offset `dst_offbits` of `dst_buf` to `bit`. All other bits
/// keep their value. Fails, and leaves the buffer as it was, when the offset
/// is past the end.
pub fn write_bit(dst_buf: &mut [u8], dst_offbits: usize, bit: BitValue) -> (r: Result<
    (),
    BitCopyError,
>)
    ensures
        final(dst_buf)@.len() == old(dst_buf)@.len(),
        r is Ok <==> dst_offbits < 8 * old(dst_buf)@.len(),
        r is Ok ==> bits_of(final(dst_buf)@) == bits_of(old(dst_buf)@).update(
            dst_offbits as int,
            bit.is_set(),
        ),
        r is Err ==> final(dst_buf)@ == old(dst_buf)@,
{
    let bit_byte = match bit {
        BitValue::One => [0x01u8],
        BitValue::Zero => [0x00u8],
    };
    let r = copy(dst_buf, &bit_byte, 1, dst_offbits, 7);
    proof {
        lemma_bits_of_zero_one(7);
        if r is Ok {
            assert(bits_of(dst_buf@) =~= bits_of(old(dst_buf)@).update(
                dst_offbits as int,
                bit.is_set(),
            ));
        } else {
            lemma_bits_ext(dst_buf@, old(dst_buf)@);
        }
    }
    r
}

/// Reads the bit at offset `src_offbits` of `src_buf`. Fails when the offset
/// is past the end.
pub fn read_bit(src_buf: &[u8], src_offbits: usize) -> (r: Result<BitValue, BitCopyError>)
    ensures
        r is Ok <==> src_offbits < 8 * src_buf@.len(),
        r is Ok ==> r->Ok_0.is_set() == bit_at(src_buf@, src_offbits as int),
{
    let mut bit_byte = [0u8];
    match copy(&mut bit_byte, src_buf, 1, 7, src_offbits) {
        Err(e) => Err(e),
        Ok(()) => {
            proof {
                let b = bit_byte@[0];
                let v: u8 = if bit_at(src_buf@, src_offbits as int) { 1 } else { 0 };
                assert forall|k: u8| k < 8 implies byte_bit(b, k) == byte_bit(v, k) by {
                    lemma_bits_of_zero_one(k);
                    assert(bits_of(bit_byte@)[k as int] == bit_at(bit_byte@, k as int));
                    assert(bits_of(seq![0u8])[k as int] == bit_at(seq![0u8], k as int));
                }
                lemma_byte_ext(b, v);
            }
            match bit_byte[0] {
                0x01 => Ok(BitValue::One),
                _ => Ok(BitValue::Zero),
            }
        },
    }
}

/// The state of a destination buffer after the first `done` bits of a run
/// have been copied: those bits come from the source, all others are as they were.
spec fn partly_copied(
    cur: Seq<u8>,
    orig: Seq<u8>,
    src: Seq<u8>,
    dst_off: int,
    src_off: int,
    done: int,
) -> bool {
    &&& cur.len() == orig.len()
    &&& forall|i: int|
        0 <= i < 8 * cur.len() ==> #[trigger] bit_at(cur, i) == (if dst_off <= i < dst_off + done {
            bit_at(src, src_off + (i - dst_off))
        } else {
            bit_at(orig, i)
        })
}

/// A buffer into which the first `done` bits of a run have been copied is
/// the buffer as it was with those bits laid over it.
proof fn lemma_partly_copied(
    cur: Seq<u8>,
    orig: Seq<u8>,
    src: Seq<u8>,
    dst_off: int,
    src_off: int,
    done: int,
)
    requires
        partly_copied(cur, orig, src, dst_off, src_off, done),
        0 <= dst_off,
        0 <= src_off,
        0 <= done,
        done > 0 ==> src_off + done <= 8 * src.len(),
    ensures
        bits_of(cur) == overlay(bits_of(orig), dst_off, bits_of(src), src_off, done),
{
    let want = overlay(bits_of(orig), dst_off, bits_of(src), src_off, done);
    assert forall|i: int| 0 <= i < 8 * cur.len() implies bits_of(cur)[i] == want[i] by {
        assert(bits_of(cur)[i] == bit_at(cur, i));
    }
    assert(bits_of(cur) =~= want);
}

/// One step of the copy that stays inside a destination byte extends the copied run.
proof fn lemma_step_within(
    cur: Seq<u8>,
    orig: Seq<u8>,
    src: Seq<u8>,
    dst_off: int,
    src_off: int,
    done: int,
    di: int,
    db: u8,
    si: int,
    sb: u8,
    take: u8,
)
    requires
        partly_copied(cur, orig, src, dst_off, src_off, done),
        0 <= done,
        0 <= di < cur.len(),
        0 <= si < src.len(),
        8 * di + db == dst_off + done,
        8 * si + sb == src_off + done,
        sb < 8,
        db < 8,
        1 <= take <= 8 - sb,
        take <= 8 - db,
    ensures
        partly_copied(
            cur.update(di, blend_within(cur[di], extract(src[si], sb, take), db, take)),
            orig,
            src,
            dst_off,
            src_off,
            done + take,
        ),
{
    let next = cur.update(di, blend_within(cur[di], extract(src[si], sb, take), db, take));
    assert forall|i: int| 0 <= i < 8 * next.len() implies #[trigger] bit_at(next, i) == (if dst_off
        <= i < dst_off + done + take {
        bit_at(src, src_off + (i - dst_off))
    } else {
        bit_at(orig, i)
    }) by {
        let k = (i % 8) as u8;
        assert(bit_at(cur, i) == (if dst_off <= i < dst_off + done {
            bit_at(src, src_off + (i - dst_off))
        } else {
            bit_at(orig, i)
        }));
        if i / 8 == di {
            lemma_blend_within(cur[di], src[si], sb, db, take, k);
            if db <= k && k < db + take {
                let j = src_off + (i - dst_off);
                assert(j == 8 * si + (sb + k - db));
            }
        }
    }
}

/// One step of the copy that crosses into the next destination byte extends the copied run.
proof fn lemma_step_across(
    cur: Seq<u8>,
    orig: Seq<u8>,
    src: Seq<u8>,
    dst_off: int,
    src_off: int,
    done: int,
    di: int,
    db: u8,
    si: int,
    sb: u8,
    take: u8,
)
    requires
        partly_copied(cur, orig, src, dst_off, src_off, done),
        0 <= done,
        0 <= di,
        di + 1 < cur.len(),
        0 <= si < src.len(),
        8 * di + db == dst_off + done,
        8 * si + sb == src_off + done,
        sb < 8,
        db < 8,
        take <= 8 - sb,
        take > 8 - db,
    ensures
        partly_copied(
            cur.update(di, blend_head(cur[di], extract(src[si], sb, take), db, take)).update(
                di + 1,
                blend_tail(cur[di + 1], extract(src[si], sb, take), db, take),
            ),
            orig,
            src,
            dst_off,
            src_off,
            done + take,
        ),
{
    let p = extract(src[si], sb, take);
    let next = cur.update(di, blend_head(cur[di], p, db, take)).update(
        di + 1,
        blend_tail(cur[di + 1], p, db, take),
    );
    assert forall|i: int| 0 <= i < 8 * next.len() implies #[trigger] bit_at(next, i) == (if dst_off
        <= i < dst_off + done + take {
        bit_at(src, src_off + (i - dst_off))
    } else {
        bit_at(orig, i)
    }) by {
        let k = (i % 8) as u8;
        assert(bit_at(cur, i) == (if dst_off <= i < dst_off + done {
            bit_at(src, src_off + (i - dst_off))
        } else {
            bit_at(orig, i)
        }));
        let j = src_off + (i - dst_off);
        if i / 8 == di {
            lemma_blend_head(cur[di], src[si], sb, db, take, k);
            if db <= k {
                assert(j == 8 * si + (sb + k - db));
            }
        } else if i / 8 == di + 1 {
            lemma_blend_tail(cur[di + 1], src[si], sb, db, take, k);
            if k < take + db - 8 {
                assert(j == 8 * si + (sb + 8 + k - db));
            }
        }
    }
}

/// Copies `nbits` bits from `src_buf`, starting at bit `src_offbits`, into
/// `dst_buf`, starting at bit `dst_offbits`. Every other bit of `dst_buf`
/// keeps its value.
///
/// Fails when the run does not lie inside both buffers. A copy that fails
/// has copied a shorter run, from the same places on: the bits of `dst_buf`
/// behind that run, and all bits outside the destination run, are untouched.
pub fn copy(
    dst_buf: &mut [u8],
    src_buf: &[u8],
    nbits: usize,
    dst_offbits: usize,
    src_offbits: usize,
) -> (r: Result<(), BitCopyError>)
    ensures
        final(dst_buf)@.len() == old(dst_buf)@.len(),
        r is Ok <==> copy_fits(
            old(dst_buf)@.len(),
            src_buf@.len(),
            nbits as nat,
            dst_offbits as nat,
            src_offbits as nat,
        ),
        r is Ok ==> bits_of(final(dst_buf)@) == overlay(
            bits_of(old(dst_buf)@),
            dst_offbits as int,
            bits_of(src_buf@),
            src_offbits as int,
            nbits as int,
        ),
        r is Err ==> exists|done: int|
            0 <= done < nbits && #[trigger] overlay(
                bits_of(old(dst_buf)@),
                dst_offbits as int,
                bits_of(src_buf@),
                src_offbits as int,
                done,
            ) == bits_of(final(dst_buf)@),
        forall|i: int|
            0 <= i < 8 * old(dst_buf)@.len() && !(dst_offbits <= i < dst_offbits + nbits)
                ==> bit_at(final(dst_buf)@, i) == bit_at(old(dst_buf)@, i),
{
    let mut remaining: usize = nbits;
    let mut src_idx: usize = src_offbits / 8;
    let mut src_bit: u8 = (src_offbits % 8) as u8;
    let mut dst_idx: usize = dst_offbits / 8;
    let mut dst_bit: u8 = (dst_offbits % 8) as u8;

    while remaining > 0
        invariant
            remaining <= nbits,
            src_bit < 8,
            dst_bit < 8,
            8 * src_idx + src_bit == src_offbits + (nbits - remaining),
            8 * dst_idx + dst_bit == dst_offbits + (nbits - remaining),
            dst_buf@.len() == old(dst_buf)@.len(),
            remaining < nbits ==> src_offbits + (nbits - remaining) <= 8 * src_buf@.len(),
            remaining < nbits ==> dst_offbits + (nbits - remaining) <= 8 * dst_buf@.len(),
            partly_copied(
                dst_buf@,
                old(dst_buf)@,
                src_buf@,
                dst_offbits as int,
                src_offbits as int,
                nbits - remaining,
            ),
        decreases remaining,
    {
        let src_avail: u8 = 8 - src_bit;
        let take: u8 = if remaining < src_avail as usize {
            remaining as u8
        } else {
            src_avail
        };

        if src_idx >= src_buf.len() {
            proof {
                lemma_partly_copied(
                    dst_buf@,
                    old(dst_buf)@,
                    src_buf@,
                    dst_offbits as int,
                    src_offbits as int,
                    nbits - remaining,
                );
            }
            return Err(BitCopyError);
        }
        // The mask may cover more bits than are copied; the shift drops the rest.
        let src_mask = bitmask_lower(src_avail as usize)?;
        let byte: u8 = (src_buf[src_idx] & src_mask) >> (src_avail - take);
        assert(byte == extract(src_buf@[src_idx as int], src_bit, take));

        let dst_avail: u8 = 8 - dst_bit;
        if dst_idx >= dst_buf.len() {
            proof {
                lemma_partly_copied(
                    dst_buf@,
                    old(dst_buf)@,
                    src_buf@,
                    dst_offbits as int,
                    src_offbits as int,
                    nbits - remaining,
                );
            }
            return Err(BitCopyError);
        }
        let byte_mask = bitmask_lower(take as usize)?;
        let ghost before = dst_buf@;
        let ghost done = nbits - remaining;
        let ghost s = src_buf@[src_idx as int];

        if take <= dst_avail {
            let room_mask = bitmask_lower(dst_avail as usize)?;
            let keep_mask = bitmask_lower((dst_avail - take) as usize)?;
            let d: u8 = dst_buf[dst_idx];
            dst_buf[dst_idx] = (d & !room_mask) | ((byte & byte_mask) << (dst_avail - take)) | (d
                & keep_mask);
            proof {
                assert(dst_buf@ == before.update(
                    dst_idx as int,
                    blend_within(d, byte, dst_bit, take),
                ));
                lemma_step_within(
                    before,
                    old(dst_buf)@,
                    src_buf@,
                    dst_offbits as int,
                    src_offbits as int,
                    done,
                    dst_idx as int,
                    dst_bit,
                    src_idx as int,
                    src_bit,
                    take,
                );
            }
            dst_bit = dst_bit + take;
            if dst_bit == 8 {
                dst_bit = 0;
                dst_idx = dst_idx + 1;
            }
        } else {
            // The run crosses into the next byte.
            if dst_idx + 1 >= dst_buf.len() {
                proof {
                    lemma_partly_copied(
                        before,
                        old(dst_buf)@,
                        src_buf@,
                        dst_offbits as int,
                        src_offbits as int,
                        done,
                    );
                }
                return Err(BitCopyError);
            }
            let rest: u8 = take - dst_avail;
            let room_mask = bitmask_lower(dst_avail as usize)?;
            let keep_mask = bitmask_lower((8 - rest) as usize)?;
            let d0: u8 = dst_buf[dst_idx];
            let d1: u8 = dst_buf[dst_idx + 1];
            dst_buf[dst_idx] = (d0 & !room_mask) | ((byte & byte_mask) >> rest);
            dst_buf[dst_idx + 1] = ((byte & byte_mask) << (8 - rest)) | (d1 & keep_mask);
            proof {
                assert(dst_buf@ == before.update(
                    dst_idx as int,
                    blend_head(d0, byte, dst_bit, take),
                ).update(dst_idx + 1, blend_tail(d1, byte, dst_bit, take)));
                lemma_step_across(
                    before,
                    old(dst_buf)@,
                    src_buf@,
                    dst_offbits as int,
                    src_offbits as int,
                    done,
                    dst_idx as int,
                    dst_bit,
                    src_idx as int,
                    src_bit,
                    take,
                );
            }
            dst_idx = dst_idx + 1;
            dst_bit = rest;
        }

        src_bit = src_bit + take;
        if src_bit == 8 {
            src_bit = 0;
            src_idx = src_idx + 1;
        }
        remaining = remaining - take as usize;
    }
    proof {
        lemma_partly_copied(
            dst_buf@,
            old(dst_buf)@,
            src_buf@,
            dst_offbits as int,
            src_offbits as int,
            nbits as int,
        );
    }
    Ok(())
}

/// Copying a run of bits to another place and copying it back from there
/// is copying it onto itself: in `back` the run is the run of `source`,
/// and every other bit of `back` is as it was. Copied back onto `source`,
/// the run gives `source`. The bits of `middle` outside the run are
/// untouched by the copy there.
pub proof fn lemma_copy_there_and_back(
    source: Seq<bool>,
    middle: Seq<bool>,
    back: Seq<bool>,
    nbits: int,
    there: int,
    here: int,
)
    requires
        0 <= nbits,
        0 <= here,
        here + nbits <= source.len(),
        0 <= there,
        there + nbits <= middle.len(),
    ensures
        overlay(back, here, overlay(middle, there, source, here, nbits), there, nbits)
            == overlay(back, here, source, here, nbits),
        overlay(source, here, overlay(middle, there, source, here, nbits), there, nbits)
            == source,
        forall|i: int|
            0 <= i < middle.len() && !(there <= i < there + nbits) ==> overlay(
                middle,
                there,
                source,
                here,
                nbits,
            )[i] == middle[i],
{
    let copied = overlay(middle, there, source, here, nbits);
    assert(overlay(back, here, copied, there, nbits) =~= overlay(
        back,
        here,
        source,
        here,
        nbits,
    ));
    assert(overlay(source, here, copied, there, nbits) =~= source);
}

} // verus!
