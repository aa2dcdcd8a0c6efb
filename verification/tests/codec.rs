use gorilla_tsz::codec::decoder::{decode, DecoderError};
use gorilla_tsz::codec::encoder::{encode, EncoderError};
use gorilla_tsz::codec::CodecMetadata;
use gorilla_tsz::utils::bitcopy::{read_bit, write_bit, BitValue};
use gorilla_tsz::Measurement;

fn sample(timestamp: u64, count: u64, value: f64) -> Measurement {
    Measurement { timestamp, count, value_bits: value.to_bits() }
}

fn measure_is_close(a: &Measurement, b: &Measurement) -> bool {
    const THRESH: f64 = 0.000001;

    a.timestamp == b.timestamp
        && a.count == b.count
        && f64::abs(f64::from_bits(a.value_bits) - f64::from_bits(b.value_bits)) < THRESH
}

#[test]
fn test_simple_codec() {
    let mut buf = [0u8; 4096];
    let mut metadata = CodecMetadata::new();
    let count = 100u64;
    let mut measures = Vec::new();
    for i in 0..count {
        measures.push(Measurement {
            timestamp: 1567029708 + (i * 60) + (i % 3) * 10,
            count: 1000 + (i % 3),
            value_bits: (43.568 + (i as f64 * 0.0023456)).to_bits(),
        })
    }

    for i in 0..measures.len() {
        assert_eq!(encode(&mut buf, &mut metadata, measures.get(i).unwrap()).ok(), Some(()));
    }

    println!(
        "Encoded {} measures to {} bytes ({} bytes/measure)",
        count,
        metadata.byte_len(),
        metadata.byte_len() / count as usize
    );

    let mut metadata2 = CodecMetadata::new();

    for i in 0..measures.len() {
        let result = decode(&buf, &mut metadata2).unwrap();
        assert!(
            measure_is_close(&result, measures.get(i).unwrap()),
            "wanted: {:?}, got: {:?}",
            measures.get(i).unwrap(),
            result
        );
    }
}

#[test]
fn hundred_samples_decode_bit_exactly_in_under_ten_bytes_each() {
    let mut buf = [0u8; 4096];
    let mut metadata = CodecMetadata::new();
    let mut measures = Vec::new();
    for i in 0..100u64 {
        measures.push(sample(
            1567029708 + 60 * i + 10 * (i % 3),
            1000 + (i % 3),
            43.568 + 0.0023456 * (i as f64),
        ));
    }
    for m in &measures {
        assert!(encode(&mut buf, &mut metadata, m).is_ok());
    }
    assert_eq!(metadata.samples(), 100);
    assert!(metadata.byte_len() < 1000);
    assert_eq!(metadata.bit_offset(), 6662);
    assert_eq!(metadata.byte_len(), 833);

    let mut reader = CodecMetadata::new();
    for m in &measures {
        assert_eq!(decode(&buf, &mut reader).ok(), Some(*m));
    }
    assert_eq!(reader.bit_offset(), metadata.bit_offset());
    assert_eq!(reader.samples(), 100);
}

#[test]
fn fresh_state_is_empty() {
    let metadata = CodecMetadata::new();
    assert_eq!(metadata.byte_len(), 0);
    assert_eq!(metadata.bit_offset(), 0);
    assert_eq!(metadata.samples(), 0);
    assert_eq!(metadata.last_measurement(), None);
}

#[test]
fn single_sample_stream() {
    let m = sample(1567029708, 1000, 43.568);
    let mut buf = [0u8; 16];
    let mut metadata = CodecMetadata::new();
    assert!(encode(&mut buf, &mut metadata, &m).is_ok());
    assert_eq!(metadata.bit_offset(), 120);
    assert_eq!(metadata.byte_len(), 15);
    assert_eq!(metadata.samples(), 1);
    assert_eq!(metadata.last_measurement(), Some(m));
    // The timestamp and the count as varints, then the value, most significant byte first.
    assert_eq!(
        buf,
        [
            0xCC, 0xF3, 0x9B, 0xEB, 0x05, 0xE8, 0x07, 0x40, 0x45, 0xC8, 0xB4, 0x39, 0x58, 0x10,
            0x62, 0x00
        ]
    );

    let mut reader = CodecMetadata::new();
    assert_eq!(decode(&buf, &mut reader).ok(), Some(m));
    assert_eq!(reader.bit_offset(), 120);
    assert_eq!(reader.samples(), 1);
    assert_eq!(reader.last_measurement(), Some(m));
}

#[test]
fn byte_len_rounds_up() {
    let mut buf = [0u8; 32];
    let mut metadata = CodecMetadata::new();
    assert!(encode(&mut buf, &mut metadata, &sample(100, 7, 1.0)).is_ok());
    assert_eq!((metadata.bit_offset(), metadata.byte_len()), (80, 10));
    assert!(encode(&mut buf, &mut metadata, &sample(160, 7, 1.0)).is_ok());
    assert_eq!((metadata.bit_offset(), metadata.byte_len()), (90, 12));
}

#[test]
fn identical_values_take_one_zero_bit() {
    let mut buf = [0u8; 32];
    let mut metadata = CodecMetadata::new();
    assert!(encode(&mut buf, &mut metadata, &sample(100, 7, 1.0)).is_ok());
    assert_eq!(metadata.bit_offset(), 80);
    assert!(encode(&mut buf, &mut metadata, &sample(160, 7, 1.0)).is_ok());
    // Eight bits of timestamp delta, one bit for the count, one for the value.
    assert_eq!(metadata.bit_offset(), 90);
    assert_eq!(read_bit(&buf, 88).ok(), Some(BitValue::Zero));
    assert_eq!(read_bit(&buf, 89).ok(), Some(BitValue::Zero));
    assert_eq!(&buf[..12], &[0x64, 0x07, 0x3F, 0xF0, 0, 0, 0, 0, 0, 0, 0x78, 0x00]);

    let mut reader = CodecMetadata::new();
    assert_eq!(decode(&buf, &mut reader).ok(), Some(sample(100, 7, 1.0)));
    assert_eq!(decode(&buf, &mut reader).ok(), Some(sample(160, 7, 1.0)));
    assert_eq!(reader.bit_offset(), 90);
}

#[test]
fn new_envelope_then_reuse() {
    let measures = [sample(100, 7, 1.0), sample(160, 9, 2.0), sample(220, 9, 4.0)];
    let mut buf = [0u8; 32];
    let mut metadata = CodecMetadata::new();

    assert!(encode(&mut buf, &mut metadata, &measures[0]).is_ok());
    assert_eq!(metadata.bit_offset(), 80);

    // 1.0 xor 2.0 has one leading and 52 trailing zeros: eleven significant bits.
    assert!(encode(&mut buf, &mut metadata, &measures[1]).is_ok());
    assert_eq!(metadata.bit_offset(), 80 + 8 + 9 + (2 + 6 + 6 + 11));
    // The value record starts behind the timestamp delta and the count delta.
    assert_eq!(read_bit(&buf, 97).ok(), Some(BitValue::One));
    assert_eq!(read_bit(&buf, 98).ok(), Some(BitValue::One));

    // 2.0 xor 4.0 lies inside that envelope: the envelope is used again.
    assert!(encode(&mut buf, &mut metadata, &measures[2]).is_ok());
    assert_eq!(metadata.bit_offset(), 122 + 1 + 1 + (2 + 11));
    assert_eq!(read_bit(&buf, 124).ok(), Some(BitValue::One));
    assert_eq!(read_bit(&buf, 125).ok(), Some(BitValue::Zero));

    assert_eq!(
        &buf[..18],
        &[
            0x64, 0x07, 0x3F, 0xF0, 0x00, 0x00, 0x00, 0x00, 0x00, 0x00, 0x78, 0x82, 0x60, 0x97,
            0xFF, 0xC8, 0x00, 0x80
        ]
    );

    let mut reader = CodecMetadata::new();
    for m in &measures {
        assert_eq!(decode(&buf, &mut reader).ok(), Some(*m));
    }
    assert_eq!(reader.bit_offset(), 137);
}

#[test]
fn constant_cadence_takes_one_bit_per_timestamp() {
    let mut buf = [0u8; 32];
    let mut metadata = CodecMetadata::new();
    let mut offsets = Vec::new();
    let mut measures = Vec::new();
    for i in 0..6u64 {
        let m = sample(1000 + 60 * i, 5, 2.5);
        assert!(encode(&mut buf, &mut metadata, &m).is_ok());
        offsets.push(metadata.bit_offset());
        measures.push(m);
    }
    // From the third sample on: one bit each for timestamp, count and value.
    assert_eq!(offsets, vec![88, 98, 101, 104, 107, 110]);
    for k in 2..6 {
        assert_eq!(read_bit(&buf, offsets[k - 1]).ok(), Some(BitValue::Zero));
    }
    assert_eq!(
        &buf[..14],
        &[0xE8, 0x07, 0x05, 0x40, 0x04, 0, 0, 0, 0, 0, 0, 0x78, 0x00, 0x00]
    );

    let mut reader = CodecMetadata::new();
    for m in &measures {
        assert_eq!(decode(&buf, &mut reader).ok(), Some(*m));
    }
}

#[test]
fn changed_cadence_writes_the_delta() {
    let measures =
        [sample(0, 1, 0.5), sample(60, 1, 0.5), sample(120, 1, 0.5), sample(190, 1, 0.5)];
    let mut buf = [0u8; 32];
    let mut metadata = CodecMetadata::new();
    let mut offsets = Vec::new();
    for m in &measures {
        assert!(encode(&mut buf, &mut metadata, m).is_ok());
        offsets.push(metadata.bit_offset());
    }
    // The fourth sample: the flag and the delta 70, whose zigzag image 140
    // takes two bytes, then two single bits.
    assert_eq!(offsets, vec![80, 90, 93, 112]);
    assert_eq!(read_bit(&buf, 93).ok(), Some(BitValue::One));

    let mut reader = CodecMetadata::new();
    for m in &measures {
        assert_eq!(decode(&buf, &mut reader).ok(), Some(*m));
    }
}

#[test]
fn deltas_go_down_as_well_as_up() {
    let measures = [
        Measurement { timestamp: 5, count: 3, value_bits: 10 },
        Measurement { timestamp: 3, count: 1, value_bits: 10 },
        Measurement { timestamp: 1, count: 2, value_bits: 10 },
    ];
    let mut buf = [0u8; 16];
    let mut metadata = CodecMetadata::new();
    for m in &measures {
        assert!(encode(&mut buf, &mut metadata, m).is_ok());
    }
    assert_eq!(metadata.bit_offset(), 109);
    assert_eq!(
        &buf[..14],
        &[0x05, 0x03, 0, 0, 0, 0, 0, 0, 0, 0x0A, 0x03, 0x81, 0x90, 0x20]
    );
    let mut reader = CodecMetadata::new();
    for m in &measures {
        assert_eq!(decode(&buf, &mut reader).ok(), Some(*m));
    }
}

#[test]
fn deltas_wrap_around() {
    let measures = [
        Measurement { timestamp: 0, count: 0, value_bits: 0 },
        Measurement { timestamp: 1 << 63, count: u64::MAX, value_bits: 0 },
        Measurement { timestamp: 0, count: 0, value_bits: 0 },
        Measurement { timestamp: u64::MAX, count: 1 << 63, value_bits: 0 },
    ];
    let mut buf = [0u8; 64];
    let mut metadata = CodecMetadata::new();
    for m in &measures {
        assert!(encode(&mut buf, &mut metadata, m).is_ok());
    }
    let mut reader = CodecMetadata::new();
    for m in &measures {
        assert_eq!(decode(&buf, &mut reader).ok(), Some(*m));
    }
    assert_eq!(reader.bit_offset(), metadata.bit_offset());
}

#[test]
fn special_doubles_round_trip() {
    let values = [
        0.0f64,
        -0.0,
        1.0,
        -1.0,
        f64::INFINITY,
        f64::NEG_INFINITY,
        f64::MIN_POSITIVE,
        f64::MAX,
        1.0e-300,
        3.5,
    ];
    let mut measures = Vec::new();
    for (i, v) in values.iter().enumerate() {
        measures.push(sample(10 * i as u64, i as u64, *v));
    }
    // Two NaNs with different payloads.
    measures.push(Measurement { timestamp: 200, count: 1, value_bits: 0x7FF8_0000_0000_0000 });
    measures.push(Measurement { timestamp: 210, count: 1, value_bits: 0x7FF8_0000_0000_1234 });

    let mut buf = [0u8; 512];
    let mut metadata = CodecMetadata::new();
    for m in &measures {
        assert!(encode(&mut buf, &mut metadata, m).is_ok());
    }
    let mut reader = CodecMetadata::new();
    for m in &measures {
        let got = decode(&buf, &mut reader).ok().unwrap();
        assert_eq!(got.timestamp, m.timestamp);
        assert_eq!(got.count, m.count);
        assert_eq!(got.value_bits, m.value_bits);
    }
}

#[test]
fn encode_clears_the_rest_of_the_last_byte_and_nothing_behind_it() {
    let mut buf = [0xFFu8; 16];
    let mut metadata = CodecMetadata::new();
    assert!(encode(&mut buf, &mut metadata, &sample(100, 7, 1.0)).is_ok());
    assert_eq!(metadata.bit_offset(), 80);
    // The first sample ends with a byte: nothing is cleared.
    assert_eq!(&buf[10..], &[0xFF; 6]);
    assert!(encode(&mut buf, &mut metadata, &sample(160, 7, 1.0)).is_ok());
    assert_eq!(metadata.bit_offset(), 90);
    // Bits 88 and 89 were written, the six bits behind them are zero, and
    // the bytes behind those are as they were.
    assert_eq!(buf[11], 0);
    assert_eq!(&buf[12..], &[0xFF; 4]);
}

#[test]
fn the_stream_does_not_depend_on_what_the_buffer_held() {
    let measures = [sample(100, 7, 1.0), sample(160, 9, 2.0), sample(220, 9, 4.0)];
    let mut clean = [0u8; 32];
    let mut dirty = [0xA5u8; 32];
    let mut a = CodecMetadata::new();
    let mut b = CodecMetadata::new();
    for m in &measures {
        assert!(encode(&mut clean, &mut a, m).is_ok());
        assert!(encode(&mut dirty, &mut b, m).is_ok());
        assert_eq!(a.bit_offset(), b.bit_offset());
        assert_eq!(clean[..a.byte_len()], dirty[..b.byte_len()]);
    }
    assert_eq!(&dirty[b.byte_len()..], &[0xA5; 14]);
}

#[test]
fn encode_fails_when_the_buffer_is_full() {
    let m = sample(100, 7, 1.0);

    let mut buf = [0u8; 9];
    let mut metadata = CodecMetadata::new();
    assert!(matches!(
        encode(&mut buf, &mut metadata, &m),
        Err(EncoderError::BitCopyError(_))
    ));

    // Ten bytes hold the first sample and nothing more.
    let mut buf = [0u8; 10];
    let mut metadata = CodecMetadata::new();
    assert!(encode(&mut buf, &mut metadata, &m).is_ok());
    assert!(matches!(
        encode(&mut buf, &mut metadata, &sample(160, 7, 1.0)),
        Err(EncoderError::BitCopyError(_))
    ));
    assert_eq!(buf, [0x64, 0x07, 0x3F, 0xF0, 0, 0, 0, 0, 0, 0]);

    let mut empty: [u8; 0] = [];
    let mut metadata = CodecMetadata::new();
    assert!(matches!(
        encode(&mut empty, &mut metadata, &m),
        Err(EncoderError::BitCopyError(_))
    ));
}

#[test]
fn decode_fails_when_the_stream_ends() {
    let mut buf = [0u8; 32];
    let mut metadata = CodecMetadata::new();
    assert!(encode(&mut buf, &mut metadata, &sample(100, 7, 1.0)).is_ok());
    assert!(encode(&mut buf, &mut metadata, &sample(160, 9, 2.0)).is_ok());
    assert_eq!(metadata.byte_len(), 16);

    // Cut inside the first sample.
    let mut reader = CodecMetadata::new();
    assert!(matches!(decode(&buf[..9], &mut reader), Err(DecoderError::BitCopyError(_))));

    // Cut inside the second sample.
    let mut reader = CodecMetadata::new();
    assert!(decode(&buf[..15], &mut reader).is_ok());
    assert!(matches!(decode(&buf[..15], &mut reader), Err(DecoderError::BitCopyError(_))));

    // Whole.
    let mut reader = CodecMetadata::new();
    assert!(decode(&buf[..16], &mut reader).is_ok());
    assert_eq!(decode(&buf[..16], &mut reader).ok(), Some(sample(160, 9, 2.0)));

    // Nothing at all.
    let mut reader = CodecMetadata::new();
    assert!(matches!(decode(&[], &mut reader), Err(DecoderError::BitCopyError(_))));
}

#[test]
fn decode_fails_on_a_varint_without_end() {
    let buf = [0xFFu8; 32];
    let mut reader = CodecMetadata::new();
    match decode(&buf, &mut reader) {
        Err(DecoderError::Generic(text)) => assert_eq!(text, "Could not find end of varint"),
        _ => panic!("an endless varint was read"),
    }
    // Nine bytes that ask for more, and then the end of the stream.
    let mut reader = CodecMetadata::new();
    assert!(matches!(decode(&buf[..9], &mut reader), Err(DecoderError::BitCopyError(_))));
}

#[test]
fn decode_fails_on_a_value_without_envelope() {
    let mut buf = [0u8; 32];
    let mut metadata = CodecMetadata::new();
    assert!(encode(&mut buf, &mut metadata, &sample(100, 7, 1.0)).is_ok());
    // A second sample by hand: the delta 0, the same count, and a value that
    // refers to an envelope that was never written.
    for (i, bit) in [BitValue::Zero, BitValue::One, BitValue::Zero].iter().enumerate() {
        assert!(write_bit(&mut buf, 88 + i, *bit).is_ok());
    }
    let mut reader = CodecMetadata::new();
    assert!(decode(&buf, &mut reader).is_ok());
    match decode(&buf, &mut reader) {
        Err(DecoderError::Generic(text)) => assert_eq!(text, "No previous xor value"),
        _ => panic!("a value without envelope was read"),
    }
}

#[test]
fn decode_fails_on_a_value_in_an_empty_envelope() {
    let mut buf = [0u8; 32];
    let mut metadata = CodecMetadata::new();
    assert!(encode(&mut buf, &mut metadata, &sample(100, 7, 1.0)).is_ok());
    // A second sample by hand: delta 0, same count, and a new envelope of width 0.
    assert!(write_bit(&mut buf, 88, BitValue::Zero).is_ok());
    assert!(write_bit(&mut buf, 89, BitValue::One).is_ok());
    assert!(write_bit(&mut buf, 90, BitValue::One).is_ok());
    // Bits 91 to 102 stay zero: no leading zeros, no width. A third sample
    // refers to that envelope.
    assert!(write_bit(&mut buf, 103, BitValue::Zero).is_ok());
    assert!(write_bit(&mut buf, 104, BitValue::Zero).is_ok());
    assert!(write_bit(&mut buf, 105, BitValue::One).is_ok());
    assert!(write_bit(&mut buf, 106, BitValue::Zero).is_ok());

    let mut reader = CodecMetadata::new();
    assert!(decode(&buf, &mut reader).is_ok());
    assert_eq!(decode(&buf, &mut reader).ok(), Some(sample(100, 7, 1.0)));
    assert_eq!(reader.bit_offset(), 103);
    assert!(matches!(decode(&buf, &mut reader), Err(DecoderError::BitCopyError(_))));
}

#[test]
fn decode_fails_on_an_envelope_wider_than_a_word() {
    let mut buf = [0u8; 32];
    let mut metadata = CodecMetadata::new();
    assert!(encode(&mut buf, &mut metadata, &sample(100, 7, 1.0)).is_ok());
    assert!(write_bit(&mut buf, 88, BitValue::Zero).is_ok());
    assert!(write_bit(&mut buf, 89, BitValue::One).is_ok());
    assert!(write_bit(&mut buf, 90, BitValue::One).is_ok());
    // 63 leading zeros and a width of 63.
    for i in 91..103 {
        assert!(write_bit(&mut buf, i, BitValue::One).is_ok());
    }
    let mut reader = CodecMetadata::new();
    assert!(decode(&buf, &mut reader).is_ok());
    assert!(matches!(decode(&buf, &mut reader), Err(DecoderError::BitCopyError(_))));
}

#[test]
fn full_width_envelope_is_written_with_width_zero() {
    // The XOR of the two values has its highest and its lowest bit set: 64
    // significant bits, which six bits cannot say.
    let first = Measurement { timestamp: 1, count: 1, value_bits: 0 };
    let second = Measurement { timestamp: 2, count: 1, value_bits: 0x8000_0000_0000_0001 };
    let mut buf = [0u8; 32];
    let mut metadata = CodecMetadata::new();
    assert!(encode(&mut buf, &mut metadata, &first).is_ok());
    assert!(encode(&mut buf, &mut metadata, &second).is_ok());
    assert_eq!(metadata.bit_offset(), 80 + 8 + 1 + (2 + 6 + 6 + 64));
    assert_eq!(
        &buf[..21],
        &[
            0x01, 0x01, 0, 0, 0, 0, 0, 0, 0, 0, 0x02, 0x60, 0x01, 0, 0, 0, 0, 0, 0, 0, 0x02
        ]
    );

    // The reader takes the width at its word and reads no bit of the XOR.
    let mut reader = CodecMetadata::new();
    assert_eq!(decode(&buf, &mut reader).ok(), Some(first));
    assert_eq!(
        decode(&buf, &mut reader).ok(),
        Some(Measurement { timestamp: 2, count: 1, value_bits: 0 })
    );
    assert_eq!(reader.bit_offset(), 80 + 8 + 1 + (2 + 6 + 6));
}

#[test]
fn two_streams_in_one_buffer() {
    let a = [sample(10, 1, 0.25), sample(20, 2, 0.5)];
    let mut buf = [0u8; 64];
    let mut metadata = CodecMetadata::new();
    for m in &a {
        assert!(encode(&mut buf, &mut metadata, m).is_ok());
    }
    let first_len = metadata.byte_len();
    let mut second = CodecMetadata::new();
    for m in &a {
        assert!(encode(&mut buf[first_len..], &mut second, m).is_ok());
    }
    assert_eq!(second.bit_offset(), metadata.bit_offset());
    assert_eq!(buf[..first_len], buf[first_len..2 * first_len]);
}
