use vt_avt::varint::{decode_varint, encode_varint};
use vt_avt::DecodeError;

fn enc(n: usize) -> Vec<u8> {
    let mut v = Vec::new();
    encode_varint(n, &mut v);
    v
}

#[test]
fn varint_roundtrip_single_byte() {
    for n in [0usize, 1, 2, 100, 127] {
        let b = enc(n);
        assert_eq!(b.len(), 1);
        assert_eq!(decode_varint(&b, 0), Ok((n, 1)));
    }
}

#[test]
fn varint_roundtrip_multi_byte() {
    for n in [128usize, 300, 16383, 16384, 1 << 30, usize::MAX] {
        let b = enc(n);
        assert_eq!(decode_varint(&b, 0), Ok((n, b.len())));
    }
}

#[test]
fn varint_exact_bytes() {
    assert_eq!(enc(0), vec![0x00]);
    assert_eq!(enc(127), vec![0x7F]);
    assert_eq!(enc(128), vec![0x80, 0x01]);
    assert_eq!(enc(300), vec![0xAC, 0x02]);
}

#[test]
fn varint_minimal_length() {
    assert_eq!(enc(127).len(), 1);
    assert_eq!(enc(128).len(), 2);
    assert_eq!(enc(16383).len(), 2);
    assert_eq!(enc(16384).len(), 3);
}

#[test]
fn varint_truncated_fails() {
    assert_eq!(decode_varint(&[], 0), Err(DecodeError::MalformedInput));
    assert_eq!(decode_varint(&[0x80], 0), Err(DecodeError::MalformedInput));
    assert_eq!(decode_varint(&[0x80, 0x80], 0), Err(DecodeError::MalformedInput));
    assert_eq!(decode_varint(&[0x01], 1), Err(DecodeError::MalformedInput));
}

#[test]
fn varint_overflow_fails() {
    // 2 * 128^9 == 2^64, one past what a 64-bit usize can hold.
    let b = [0x80, 0x80, 0x80, 0x80, 0x80, 0x80, 0x80, 0x80, 0x80, 0x02];
    assert_eq!(decode_varint(&b, 0), Err(DecodeError::MalformedInput));
}

#[test]
fn varint_decoder_accepts_padded_form() {
    // The decoder accepts a non-minimal encoding; the encoder never emits one.
    assert_eq!(decode_varint(&[0x80, 0x00], 0), Ok((0, 2)));
}

#[test]
fn varint_decodes_mid_buffer() {
    let mut v = enc(7);
    v.extend_from_slice(&enc(300));
    v.extend_from_slice(&enc(2));
    assert_eq!(decode_varint(&v, 1), Ok((300, 3)));
    assert_eq!(decode_varint(&v, 3), Ok((2, 4)));
}
