use gorilla_tsz::utils::bitcopy::{copy, read_bit, write_bit, BitValue};
use gorilla_tsz::utils::varint::{decode, encode};

#[test]
fn test_simple_offset_bitcopies() {
    let mut in_byte = [0u8; 1];
    let mut out_byte = [0u8; 1];
    let mut buf = [0u8; 2];
    let offset_bits = 3;
    let mut dst_offbits = 0;
    let mut src_offbits = 0;

    in_byte[0] = 18;

    for _ in 0..offset_bits {
        assert_eq!(write_bit(&mut buf, dst_offbits, BitValue::One).ok(), Some(()));
        dst_offbits += 1;
    }
    assert_eq!(copy(&mut buf, &in_byte, 6, dst_offbits, 8 - 6).ok(), Some(()));

    for _ in 0..offset_bits {
        assert_eq!(read_bit(&buf, src_offbits).ok(), Some(BitValue::One));
        src_offbits += 1;
    }
    assert_eq!(copy(&mut out_byte, &buf, 6, 8 - 6, src_offbits).ok(), Some(()));

    assert_eq!(out_byte[0], in_byte[0]);
}

#[test]
fn test_bit_copy_bitpattern() {
    const COUNT: usize = 10;
    let mut buf = [0u8; COUNT];

    let mut dst_off = 0;
    for i in 0..(COUNT * 8) {
        let mut b = [0u8];

        if (i % 2) != 0 {
            b[0] |= 1 << 7;
        }

        let r = copy(&mut buf, &b, 1, dst_off, 0);
        assert_eq!(r.ok(), Some(()));

        dst_off += 1;
    }

    let mut src_off = 0;
    for i in 0..(COUNT * 8) {
        let mut b = [0u8];

        let r = copy(&mut b, &buf, 1, 0, src_off);
        assert_eq!(r.ok(), Some(()));

        if (i % 2) != 0 {
            assert_eq!(b[0], 1 << 7);
        } else {
            assert_eq!(b[0], 0u8);
        }

        src_off += 1;
    }
}

#[test]
fn test_bit_copy() {
    verify_varint_copy(&[0, 1, 2048, 16384, 1 << 16, 1 << 24, 1 << 32, 1 << 48, 1 << 63], None);
    verify_varint_copy(&[0, 1, 2048, 16384, 1 << 16, 1 << 24, 1 << 32, 1 << 48, 1 << 63], Some(1));
    verify_varint_copy(&[0, 1, 2048, 16384, 1 << 16, 1 << 24, 1 << 32, 1 << 48, 1 << 63], Some(2));
    verify_varint_copy(&[0, 1, 2048, 16384, 1 << 16, 1 << 24, 1 << 32, 1 << 48, 1 << 63], Some(3));
    verify_varint_copy(&[0, 1, 2048, 16384, 1 << 16, 1 << 24, 1 << 32, 1 << 48, 1 << 63], Some(4));
    verify_varint_copy(&[0, 1, 2048, 16384, 1 << 16, 1 << 24, 1 << 32, 1 << 48, 1 << 63], Some(5));
    verify_varint_copy(&[0, 1, 2048, 16384, 1 << 16, 1 << 24, 1 << 32, 1 << 48, 1 << 63], Some(6));
    verify_varint_copy(&[0, 1, 2048, 16384, 1 << 16, 1 << 24, 1 << 32, 1 << 48, 1 << 63], Some(7));
}

fn verify_varint_copy(values: &[u64], weave_bits: Option<usize>) {
    let weavesize = match weave_bits {
        None => 0,
        Some(n) => (values.len() * n) / 8 + 1,
    };
    let mut buf = vec![0; (values.len() * 10) + weavesize].into_boxed_slice();
    let mut int_buf: [u8; 10] = [0; 10];

    let mut dst_offbits = 0;
    let mut encoded = Vec::new();
    for value in values {
        let sz = encode(*value, &mut int_buf).unwrap();

        encoded.push((*value, sz));
        match copy(&mut buf, &int_buf, sz * 8, dst_offbits, 0) {
            Err(_) => assert!(false),
            Ok(()) => assert!(true),
        };

        dst_offbits += sz * 8;

        match weave_bits {
            Some(num) => {
                for _ in 0..num {
                    assert_eq!(write_bit(&mut buf, dst_offbits, BitValue::One).ok(), Some(()));
                    dst_offbits += 1;
                }
            }
            None => {}
        }
    }

    println!("decoding");
    let mut src_offbits = 0;
    for (value, sz) in encoded {
        match copy(&mut int_buf, &buf, sz * 8, 0, src_offbits) {
            Err(_) => assert!(false),
            Ok(()) => {
                assert_eq!(decode(&int_buf).ok(), Some((value, sz)))
            }
        };

        src_offbits += sz * 8;

        match weave_bits {
            Some(num) => {
                for _ in 0..num {
                    assert_eq!(read_bit(&buf, src_offbits).ok(), Some(BitValue::One));
                    src_offbits += 1;
                }
            }
            None => {}
        }
    }
}

/// The bit at `i` of `buf`, bit 0 being the most significant bit of byte 0.
fn bit(buf: &[u8], i: usize) -> bool {
    (buf[i / 8] >> (7 - i % 8)) & 1 == 1
}

fn pattern(len: usize, seed: u8) -> Vec<u8> {
    let mut x = seed;
    let mut out = Vec::new();
    for _ in 0..len {
        x = x.wrapping_mul(167).wrapping_add(13);
        out.push(x);
    }
    out
}

#[test]
fn copy_replaces_the_run_and_nothing_else() {
    let src = pattern(11, 1);
    for nbits in 1..=80usize {
        for src_off in 0..8usize {
            for dst_off in 0..8usize {
                let before = pattern(12, 99);
                let mut dst = before.clone();
                assert!(copy(&mut dst, &src, nbits, dst_off, src_off).is_ok());
                for i in 0..(8 * dst.len()) {
                    if dst_off <= i && i < dst_off + nbits {
                        assert_eq!(bit(&dst, i), bit(&src, src_off + (i - dst_off)));
                    } else {
                        assert_eq!(bit(&dst, i), bit(&before, i));
                    }
                }
            }
        }
    }
}

#[test]
fn copy_there_and_back_restores_the_run() {
    let pattern_bits = pattern(11, 7);
    for nbits in 1..=80usize {
        for src_off in 0..8usize {
            for dst_off in 0..8usize {
                let mut middle = pattern(12, 200);
                assert!(copy(&mut middle, &pattern_bits, nbits, dst_off, src_off).is_ok());
                let mut back = pattern_bits.clone();
                // Spoil the run, so that the copy back has something to restore.
                for i in src_off..(src_off + nbits) {
                    back[i / 8] ^= 1 << (7 - i % 8);
                }
                assert!(copy(&mut back, &middle, nbits, src_off, dst_off).is_ok());
                assert_eq!(back, pattern_bits);
            }
        }
    }
}

#[test]
fn copy_keeps_the_bits_behind_a_run_in_the_same_byte() {
    let mut dst = [0xFFu8, 0xFF];
    // Three zero bits at offset 2: 11 000 111.
    assert!(copy(&mut dst, &[0x00], 3, 2, 0).is_ok());
    assert_eq!(dst, [0b1100_0111, 0xFF]);

    let mut dst = [0xFFu8, 0xFF];
    // Six zero bits at offset 5 cross into the next byte: 11111 000 | 000 11111.
    assert!(copy(&mut dst, &[0x00], 6, 5, 1).is_ok());
    assert_eq!(dst, [0b1111_1000, 0b0001_1111]);
}

#[test]
fn copy_of_single_byte_values() {
    // A byte put at offset 0 takes the whole byte.
    let mut dst = [0u8; 2];
    assert!(copy(&mut dst, &[0xA5], 8, 0, 0).is_ok());
    assert_eq!(dst, [0xA5, 0x00]);

    // Six bits read from offset 2 are the low six bits of the byte.
    let mut dst = [0u8; 1];
    assert!(copy(&mut dst, &[0b1110_1101], 6, 2, 2).is_ok());
    assert_eq!(dst, [0b0010_1101]);
}

#[test]
fn copy_of_nothing_always_succeeds() {
    let mut dst = [0x5Au8; 2];
    assert!(copy(&mut dst, &[], 0, 1000, 1000).is_ok());
    assert_eq!(dst, [0x5A, 0x5A]);
}

#[test]
fn copy_fails_past_the_end() {
    let src = [0xFFu8; 2];

    // One bit too many for the destination: the eight bits that fit are copied.
    let mut dst = [0u8; 1];
    assert!(copy(&mut dst, &src, 9, 0, 0).is_err());
    assert_eq!(dst, [0xFF]);
    // A run that would cross the end is not begun.
    let mut dst = [0u8; 1];
    assert!(copy(&mut dst, &src, 4, 5, 0).is_err());
    assert_eq!(dst, [0x00]);
    // Two bytes fit, the third does not; the bits before the run are untouched.
    let mut dst = [0u8; 3];
    assert!(copy(&mut dst, &[0xFF; 4], 24, 4, 0).is_err());
    assert_eq!(dst, [0x0F, 0xFF, 0xF0]);

    // One bit too many for the source.
    let mut dst = [0u8; 4];
    assert!(copy(&mut dst, &src, 17, 0, 0).is_err());
    let mut dst = [0u8; 4];
    assert!(copy(&mut dst, &src, 1, 0, 16).is_err());

    // Exactly to the end is fine.
    let mut dst = [0u8; 2];
    assert!(copy(&mut dst, &src, 16, 0, 0).is_ok());
    assert_eq!(dst, [0xFF, 0xFF]);
}

#[test]
fn copy_with_offsets_near_the_largest() {
    let mut dst = [0u8; 2];
    assert!(copy(&mut dst, &[0xFF], 1, usize::MAX, 0).is_err());
    assert!(copy(&mut dst, &[0xFF], 1, 0, usize::MAX).is_err());
    assert!(copy(&mut dst, &[0xFF], usize::MAX, 0, 0).is_err());
    assert!(copy(&mut dst, &[0xFF], 0, usize::MAX, usize::MAX).is_ok());
}

#[test]
fn write_bit_and_read_bit() {
    let mut buf = [0u8; 2];
    assert!(write_bit(&mut buf, 0, BitValue::One).is_ok());
    assert!(write_bit(&mut buf, 15, BitValue::One).is_ok());
    assert_eq!(buf, [0x80, 0x01]);
    assert!(write_bit(&mut buf, 0, BitValue::Zero).is_ok());
    assert_eq!(buf, [0x00, 0x01]);

    assert_eq!(read_bit(&buf, 15).ok(), Some(BitValue::One));
    assert_eq!(read_bit(&buf, 14).ok(), Some(BitValue::Zero));

    assert!(write_bit(&mut buf, 16, BitValue::One).is_err());
    assert_eq!(buf, [0x00, 0x01]);
    assert!(read_bit(&buf, 16).is_err());
}

#[test]
fn alternating_bits_written_one_by_one_read_back() {
    let mut buf = [0u8; 10];
    for i in 0..80 {
        let v = if i % 2 == 0 { BitValue::Zero } else { BitValue::One };
        assert!(write_bit(&mut buf, i, v).is_ok());
    }
    assert_eq!(buf, [0x55; 10]);
    for i in 0..80 {
        let v = if i % 2 == 0 { BitValue::Zero } else { BitValue::One };
        assert_eq!(read_bit(&buf, i).ok(), Some(v));
    }
}
