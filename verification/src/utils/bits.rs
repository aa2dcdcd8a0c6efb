//! The bit-level view of byte buffers.
//!
//! Bit 0 of a buffer is the most significant bit of byte 0, bit 7 its least
//! significant bit, bit 8 the most significant bit of byte 1, and so on.

use vstd::prelude::*;

verus! {

/// Bit `k` of a byte, counted from the most significant bit (`k < 8`).
pub open spec fn byte_bit(b: u8, k: u8) -> bool {
    (b >> ((7 - k) as u8)) & 1 == 1
}

/// Bit `i` of a buffer.
pub open spec fn bit_at(bytes: Seq<u8>, i: int) -> bool {
    byte_bit(bytes[i / 8], (i % 8) as u8)
}

/// A buffer seen as a sequence of bits.
pub open spec fn bits_of(bytes: Seq<u8>) -> Seq<bool> {
    Seq::new(8 * bytes.len(), |i: int| bit_at(bytes, i))
}

/// `base` with the `n` bits from position `at` on replaced by the bits of
/// `from` that start at position `start`.
pub open spec fn overlay(base: Seq<bool>, at: int, from: Seq<bool>, start: int, n: int) -> Seq<
    bool,
> {
    Seq::new(
        base.len(),
        |i: int|
            if at <= i < at + n {
                from[start + (i - at)]
            } else {
                base[i]
            },
    )
}

/// A run of `n` zero bits.
pub open spec fn zeros(n: nat) -> Seq<bool> {
    Seq::new(n, |i: int| false)
}

/// The byte whose low `n` bits are set and whose other bits are clear.
pub open spec fn low_mask(n: u8) -> u8 {
    if n >= 8 { 0xffu8 } else { ((1u8 << n) - 1) as u8 }
}

/// The `take` bits of `s` that start at bit `sb`, moved to the low end of a byte.
pub open spec fn extract(s: u8, sb: u8, take: u8) -> u8 {
    (s & low_mask((8 - sb) as u8)) >> ((8 - sb - take) as u8)
}

/// `d` with its bits `db .. db + take` replaced by the low `take` bits of `p`;
/// the run ends inside the byte (`db + take <= 8`).
pub open spec fn blend_within(d: u8, p: u8, db: u8, take: u8) -> u8 {
    (d & !low_mask((8 - db) as u8)) | ((p & low_mask(take)) << ((8 - db - take) as u8)) | (d
        & low_mask((8 - db - take) as u8))
}

/// `d` with its bits from `db` on replaced by the first `8 - db` of the low
/// `take` bits of `p`; the run goes on into the next byte (`db + take > 8`).
pub open spec fn blend_head(d: u8, p: u8, db: u8, take: u8) -> u8 {
    (d & !low_mask((8 - db) as u8)) | ((p & low_mask(take)) >> ((take + db - 8) as u8))
}

/// `d` with its first `db + take - 8` bits replaced by the last bits of the
/// low `take` bits of `p`: the second half of a run that began in the byte before.
pub open spec fn blend_tail(d: u8, p: u8, db: u8, take: u8) -> u8 {
    ((p & low_mask(take)) << ((16 - take - db) as u8)) | (d & low_mask((16 - take - db) as u8))
}

/// Two bytes with the same eight bits are the same byte.
pub proof fn lemma_byte_ext(a: u8, b: u8)
    requires
        forall|k: u8| k < 8 ==> byte_bit(a, k) == byte_bit(b, k),
    ensures
        a == b,
{
    assert(byte_bit(a, 0) == byte_bit(b, 0));
    assert(byte_bit(a, 1) == byte_bit(b, 1));
    assert(byte_bit(a, 2) == byte_bit(b, 2));
    assert(byte_bit(a, 3) == byte_bit(b, 3));
    assert(byte_bit(a, 4) == byte_bit(b, 4));
    assert(byte_bit(a, 5) == byte_bit(b, 5));
    assert(byte_bit(a, 6) == byte_bit(b, 6));
    assert(byte_bit(a, 7) == byte_bit(b, 7));
    assert((byte_bit(a, 0) == byte_bit(b, 0) && byte_bit(a, 1) == byte_bit(b, 1) && byte_bit(a, 2)
        == byte_bit(b, 2) && byte_bit(a, 3) == byte_bit(b, 3) && byte_bit(a, 4) == byte_bit(b, 4)
        && byte_bit(a, 5) == byte_bit(b, 5) && byte_bit(a, 6) == byte_bit(b, 6) && byte_bit(a, 7)
        == byte_bit(b, 7)) ==> a == b) by (bit_vector);
}

/// Two buffers with the same bits are the same buffer.
pub proof fn lemma_bits_ext(a: Seq<u8>, b: Seq<u8>)
    requires
        a.len() == b.len(),
        forall|i: int| 0 <= i < 8 * a.len() ==> bit_at(a, i) == bit_at(b, i),
    ensures
        a == b,
{
    assert forall|j: int| 0 <= j < a.len() implies a[j] == b[j] by {
        assert forall|k: u8| k < 8 implies byte_bit(a[j], k) == byte_bit(b[j], k) by {
            let i = 8 * j + k;
            assert(i / 8 == j && i % 8 == k as int);
            assert(bit_at(a, i) == bit_at(b, i));
        }
        lemma_byte_ext(a[j], b[j]);
    }
    assert(a =~= b);
}

/// The bits of the bytes `0` and `1`.
pub proof fn lemma_bits_of_zero_one(k: u8)
    by (bit_vector)
    requires
        k < 8,
    ensures
        !byte_bit(0u8, k),
        byte_bit(1u8, k) == (k == 7),
{
}

/// A run that ends inside the destination byte replaces exactly its own bits.
pub proof fn lemma_blend_within(d: u8, s: u8, sb: u8, db: u8, take: u8, k: u8)
    by (bit_vector)
    requires
        sb < 8,
        db < 8,
        1 <= take,
        take <= 8 - sb,
        take <= 8 - db,
        k < 8,
    ensures
        byte_bit(blend_within(d, extract(s, sb, take), db, take), k) == (if db <= k && k < db
            + take {
            byte_bit(s, (sb + k - db) as u8)
        } else {
            byte_bit(d, k)
        }),
{
}

/// The first byte of a run that crosses a byte boundary keeps its bits before the run.
pub proof fn lemma_blend_head(d: u8, s: u8, sb: u8, db: u8, take: u8, k: u8)
    by (bit_vector)
    requires
        sb < 8,
        db < 8,
        take <= 8 - sb,
        take > 8 - db,
        k < 8,
    ensures
        byte_bit(blend_head(d, extract(s, sb, take), db, take), k) == (if db <= k {
            byte_bit(s, (sb + k - db) as u8)
        } else {
            byte_bit(d, k)
        }),
{
}

/// The second byte of a run that crosses a byte boundary keeps its bits after the run.
pub proof fn lemma_blend_tail(d: u8, s: u8, sb: u8, db: u8, take: u8, k: u8)
    by (bit_vector)
    requires
        sb < 8,
        db < 8,
        take <= 8 - sb,
        take > 8 - db,
        k < 8,
    ensures
        byte_bit(blend_tail(d, extract(s, sb, take), db, take), k) == (if k < take + db - 8 {
            byte_bit(s, (sb + 8 + k - db) as u8)
        } else {
            byte_bit(d, k)
        }),
{
}

/// `w` where the bit is set, zero where it is not.
pub open spec fn weight(bit: bool, w: int) -> int {
    if bit {
        w
    } else {
        0
    }
}

/// The byte with the given bits, most significant first.
pub open spec fn byte_from(
    b0: bool,
    b1: bool,
    b2: bool,
    b3: bool,
    b4: bool,
    b5: bool,
    b6: bool,
    b7: bool,
) -> u8 {
    (weight(b0, 128) + weight(b1, 64) + weight(b2, 32) + weight(b3, 16) + weight(b4, 8) + weight(
        b5,
        4,
    ) + weight(b6, 2) + weight(b7, 1)) as u8
}

/// The byte that the first eight bits of `bits` spell.
pub open spec fn pack8(bits: Seq<bool>) -> u8 {
    byte_from(bits[0], bits[1], bits[2], bits[3], bits[4], bits[5], bits[6], bits[7])
}

/// The bytes that a sequence of bits spells, eight bits to the byte.
pub open spec fn bytes_of(bits: Seq<bool>) -> Seq<u8> {
    Seq::new(bits.len() / 8, |j: int| pack8(bits.subrange(8 * j, 8 * j + 8)))
}

/// A byte made from eight bits has those bits.
pub proof fn lemma_byte_from_bits(
    b0: bool,
    b1: bool,
    b2: bool,
    b3: bool,
    b4: bool,
    b5: bool,
    b6: bool,
    b7: bool,
)
    by (bit_vector)
    ensures
        byte_bit(byte_from(b0, b1, b2, b3, b4, b5, b6, b7), 0) == b0,
        byte_bit(byte_from(b0, b1, b2, b3, b4, b5, b6, b7), 1) == b1,
        byte_bit(byte_from(b0, b1, b2, b3, b4, b5, b6, b7), 2) == b2,
        byte_bit(byte_from(b0, b1, b2, b3, b4, b5, b6, b7), 3) == b3,
        byte_bit(byte_from(b0, b1, b2, b3, b4, b5, b6, b7), 4) == b4,
        byte_bit(byte_from(b0, b1, b2, b3, b4, b5, b6, b7), 5) == b5,
        byte_bit(byte_from(b0, b1, b2, b3, b4, b5, b6, b7), 6) == b6,
        byte_bit(byte_from(b0, b1, b2, b3, b4, b5, b6, b7), 7) == b7,
{
}

/// Bit `k` of the byte that `bits` spells is `bits[k]`.
pub proof fn lemma_pack8_bit(bits: Seq<bool>, k: u8)
    requires
        k < 8,
    ensures
        byte_bit(pack8(bits), k) == bits[k as int],
{
    lemma_byte_from_bits(bits[0], bits[1], bits[2], bits[3], bits[4], bits[5], bits[6], bits[7]);
}

/// Spelling the bits of a buffer gives the buffer back.
pub proof fn lemma_bytes_of_bits(bytes: Seq<u8>)
    ensures
        bytes_of(bits_of(bytes)) == bytes,
{
    let back = bytes_of(bits_of(bytes));
    assert forall|j: int| 0 <= j < bytes.len() implies back[j] == bytes[j] by {
        let chunk = bits_of(bytes).subrange(8 * j, 8 * j + 8);
        assert forall|k: u8| k < 8 implies byte_bit(back[j], k) == byte_bit(bytes[j], k) by {
            lemma_pack8_bit(chunk, k);
            let i = 8 * j + k;
            assert(chunk[k as int] == bits_of(bytes)[i]);
            assert(i / 8 == j && i % 8 == k as int);
        }
        lemma_byte_ext(back[j], bytes[j]);
    }
    assert(back =~= bytes);
}

/// Bit `k` of a 64-bit word, counted from the most significant bit (`k < 64`).
pub open spec fn word_bit(w: u64, k: u8) -> bool {
    (w >> ((63 - k) as u64)) & 1u64 == 1u64
}

/// Byte `j` of a 64-bit word, counted from the most significant byte (`j < 8`).
pub open spec fn word_byte(w: u64, j: u8) -> u8 {
    ((w >> ((8 * (7 - j)) as u64)) & 0xff) as u8
}

/// The eight bytes of a word, most significant first.
pub open spec fn be_bytes(w: u64) -> Seq<u8> {
    Seq::new(8, |j: int| word_byte(w, j as u8))
}

/// The word that eight bytes spell, most significant first.
pub open spec fn be_word(bytes: Seq<u8>) -> u64 {
    ((bytes[0] as u64) << 56) | ((bytes[1] as u64) << 48) | ((bytes[2] as u64) << 40) | ((
    bytes[3] as u64) << 32) | ((bytes[4] as u64) << 24) | ((bytes[5] as u64) << 16) | ((
    bytes[6] as u64) << 8) | (bytes[7] as u64)
}

/// Bit `k` of byte `j` of a word is bit `8 * j + k` of the word.
pub proof fn lemma_word_byte_bit(w: u64, j: u8, k: u8)
    by (bit_vector)
    requires
        j < 8,
        k < 8,
    ensures
        byte_bit(word_byte(w, j), k) == word_bit(w, (8 * j + k) as u8),
{
}

/// The bits of the big-endian bytes of a word are the bits of the word.
pub proof fn lemma_be_bytes_bits(w: u64, i: int)
    requires
        0 <= i < 64,
    ensures
        bits_of(be_bytes(w)).len() == 64,
        bits_of(be_bytes(w))[i] == word_bit(w, i as u8),
{
    lemma_word_byte_bit(w, (i / 8) as u8, (i % 8) as u8);
}

/// Spelling the bytes of a word gives the word back.
pub proof fn lemma_be_word_bytes(w: u64)
    ensures
        be_word(be_bytes(w)) == w,
{
    let b = be_bytes(w);
    assert(b[0] == word_byte(w, 0) && b[1] == word_byte(w, 1) && b[2] == word_byte(w, 2) && b[3]
        == word_byte(w, 3) && b[4] == word_byte(w, 4) && b[5] == word_byte(w, 5) && b[6]
        == word_byte(w, 6) && b[7] == word_byte(w, 7));
    assert(((word_byte(w, 0) as u64) << 56) | ((word_byte(w, 1) as u64) << 48) | ((word_byte(
        w,
        2,
    ) as u64) << 40) | ((word_byte(w, 3) as u64) << 32) | ((word_byte(w, 4) as u64) << 24) | ((
    word_byte(w, 5) as u64) << 16) | ((word_byte(w, 6) as u64) << 8) | (word_byte(w, 7) as u64)
        == w) by (bit_vector);
}

/// The XOR of two words is zero exactly where they are equal, does not
/// depend on their order, and is undone by a second XOR.
pub proof fn lemma_xor(a: u64, b: u64)
    by (bit_vector)
    ensures
        (a ^ b == 0) <==> a == b,
        a ^ b == b ^ a,
        a ^ (a ^ b) == b,
{
}

/// A byte below 64 has its two highest bits clear.
pub proof fn lemma_six_bit_byte(v: u8)
    by (bit_vector)
    requires
        v < 64,
    ensures
        !byte_bit(v, 0),
        !byte_bit(v, 1),
{
}

} // verus!
