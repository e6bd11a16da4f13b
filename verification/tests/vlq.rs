use bad_apple::midi::MidiError;
use bad_apple::vlq::{decode_vlq, encode_vlq, VLQ_MAX};

fn width_of(value: u32) -> usize {
    if value < 0x80 {
        1
    } else if value < 0x4000 {
        2
    } else if value < 0x20_0000 {
        3
    } else {
        4
    }
}

#[test]
fn vlq_known_encodings() {
    assert_eq!(encode_vlq(0), Some(vec![0x00]));
    assert_eq!(encode_vlq(0x40), Some(vec![0x40]));
    assert_eq!(encode_vlq(0x7F), Some(vec![0x7F]));
    assert_eq!(encode_vlq(0x80), Some(vec![0x81, 0x00]));
    assert_eq!(encode_vlq(0x2000), Some(vec![0xC0, 0x00]));
    assert_eq!(encode_vlq(0x3FFF), Some(vec![0xFF, 0x7F]));
    assert_eq!(encode_vlq(0x4000), Some(vec![0x81, 0x80, 0x00]));
    assert_eq!(encode_vlq(0x1F_FFFF), Some(vec![0xFF, 0xFF, 0x7F]));
    assert_eq!(encode_vlq(0x20_0000), Some(vec![0x81, 0x80, 0x80, 0x00]));
    assert_eq!(encode_vlq(0x0FFF_FFFF), Some(vec![0xFF, 0xFF, 0xFF, 0x7F]));
}

#[test]
fn vlq_round_trip_at_the_edges_of_every_width() {
    for value in [0u32, 1, 0x7F, 0x80, 0x3FFF, 0x4000, 0x1F_FFFF, 0x20_0000, 0x0FFF_FFFE, VLQ_MAX] {
        let bytes = encode_vlq(value).unwrap();
        assert_eq!(bytes.len(), width_of(value));
        assert_eq!(decode_vlq(&bytes), Ok((value, bytes.len())));
    }
}

#[test]
fn vlq_round_trip_over_a_sweep_of_the_range() {
    let mut value: u32 = 0;
    while value <= VLQ_MAX {
        let bytes = encode_vlq(value).unwrap();
        assert_eq!(bytes.len(), width_of(value));
        assert_eq!(decode_vlq(&bytes), Ok((value, bytes.len())));
        value += 4099;
    }
}

#[test]
fn vlq_round_trip_of_every_small_value() {
    for value in 0u32..70_000 {
        let bytes = encode_vlq(value).unwrap();
        assert_eq!(bytes.len(), width_of(value));
        assert_eq!(decode_vlq(&bytes), Ok((value, bytes.len())));
    }
}

#[test]
fn vlq_encoding_keeps_no_needless_byte() {
    for value in [0u32, 0x7F, 0x80, 0x3FFF, 0x4000, 0x1F_FFFF, 0x20_0000, VLQ_MAX] {
        let bytes = encode_vlq(value).unwrap();
        // a first byte of 0x80 would be a continuation byte that adds nothing
        assert!(bytes.len() == 1 || bytes[0] != 0x80);
        assert!(bytes[bytes.len() - 1] < 0x80);
        for b in &bytes[..bytes.len() - 1] {
            assert!(*b >= 0x80);
        }
    }
}

#[test]
fn vlq_too_large_is_not_encoded() {
    assert_eq!(encode_vlq(VLQ_MAX + 1), None);
    assert_eq!(encode_vlq(u32::MAX), None);
}

#[test]
fn vlq_decoding_stops_at_the_first_clear_high_bit() {
    assert_eq!(decode_vlq(&[0x05, 0xFF, 0xFF]), Ok((5, 1)));
    assert_eq!(decode_vlq(&[0x81, 0x00, 0x7F]), Ok((0x80, 2)));
    assert_eq!(decode_vlq(&[0x80, 0x80, 0x80, 0x01, 0x55]), Ok((1, 4)));
}

#[test]
fn vlq_that_runs_out_of_bytes_is_an_eof() {
    assert_eq!(decode_vlq(&[]), Err(MidiError::UnexpectedEof));
    assert_eq!(decode_vlq(&[0x81]), Err(MidiError::UnexpectedEof));
    assert_eq!(decode_vlq(&[0xFF, 0xFF, 0xFF]), Err(MidiError::UnexpectedEof));
}

#[test]
fn vlq_of_four_continuation_bytes_is_an_eof() {
    assert_eq!(decode_vlq(&[0x81, 0x82, 0x83, 0x84, 0x05]), Err(MidiError::UnexpectedEof));
    assert_eq!(decode_vlq(&[0xFF, 0xFF, 0xFF, 0xFF]), Err(MidiError::UnexpectedEof));
}
