use fum::{
    decode_bytes, decode_string, decode_u32, encode_bytes, encode_string, encode_u32, digest,
    digest_from_hex, hex_to_bytes, FumError,
};

#[test]
fn u32_round_trip() {
    for value in [0u32, 1, 255, 256, 0xDEAD_BEEF, u32::MAX] {
        let mut buf: Vec<u8> = Vec::new();
        encode_u32(value, &mut buf);
        assert_eq!(buf.len(), 4);
        let (decoded, pos) = decode_u32(&buf, 0).unwrap();
        assert_eq!(decoded, value);
        assert_eq!(pos, 4);
    }
}

#[test]
fn u32_is_big_endian() {
    let mut buf: Vec<u8> = Vec::new();
    encode_u32(0x01020304, &mut buf);
    assert_eq!(buf, vec![1u8, 2, 3, 4]);
}

#[test]
fn truncated_u32_is_connection_error() {
    let buf = vec![1u8, 2, 3];
    assert!(matches!(decode_u32(&buf, 0), Err(FumError::Connection)));
    let buf4 = vec![1u8, 2, 3, 4];
    assert!(matches!(decode_u32(&buf4, 1), Err(FumError::Connection)));
}

#[test]
fn bytes_round_trip() {
    let data = b"some raw payload \x00\xff".to_vec();
    let mut buf: Vec<u8> = Vec::new();
    encode_bytes(&data, &mut buf);
    let (decoded, pos) = decode_bytes(&buf, 0).unwrap();
    assert_eq!(decoded, data);
    assert_eq!(pos, buf.len());

    let empty: Vec<u8> = Vec::new();
    let mut buf2: Vec<u8> = Vec::new();
    encode_bytes(&empty, &mut buf2);
    let (decoded2, pos2) = decode_bytes(&buf2, 0).unwrap();
    assert_eq!(decoded2, empty);
    assert_eq!(pos2, 4);
}

#[test]
fn truncated_bytes_is_connection_error() {
    let data = b"payload".to_vec();
    let mut buf: Vec<u8> = Vec::new();
    encode_bytes(&data, &mut buf);
    // The length prefix promises more content than the buffer holds.
    let truncated = buf[..buf.len() - 2].to_vec();
    assert!(matches!(decode_bytes(&truncated, 0), Err(FumError::Connection)));
}

#[test]
fn string_round_trip() {
    for text in ["", "plain", "héllo wörld", "数据完整性"] {
        let mut buf: Vec<u8> = Vec::new();
        encode_string(text, &mut buf);
        let (decoded, pos) = decode_string(&buf, 0).unwrap();
        assert_eq!(decoded, text);
        assert_eq!(pos, buf.len());
    }
}

#[test]
fn truncated_string_is_connection_error() {
    let mut buf: Vec<u8> = Vec::new();
    encode_string("hello", &mut buf);
    let truncated = buf[..buf.len() - 1].to_vec();
    assert!(matches!(decode_string(&truncated, 0), Err(FumError::Connection)));
}

#[test]
fn invalid_utf8_is_encoding_error() {
    let mut buf: Vec<u8> = Vec::new();
    encode_bytes(&vec![0xffu8, 0xfe, 0xfd], &mut buf);
    assert!(matches!(decode_string(&buf, 0), Err(FumError::Encoding)));
}

#[test]
fn hex_display_round_trip() {
    assert_eq!(digest(&[12, 10]), "0c0a");
    assert_eq!(digest(&[]), "");
    assert_eq!(digest(&[0xde, 0xad, 0xbe, 0xef]), "deadbeef");
    assert_eq!(hex_to_bytes("deadbeef"), vec![0xde, 0xad, 0xbe, 0xef]);
    assert_eq!(hex_to_bytes("DeadBeef"), vec![0xde, 0xad, 0xbe, 0xef]);
    assert_eq!(hex_to_bytes(""), Vec::<u8>::new());
}

#[test]
fn digest_from_hex_errors() {
    assert!(matches!(digest_from_hex("zz"), Err(FumError::Encoding)));
    assert!(matches!(digest_from_hex("abc"), Err(FumError::Encoding)));
    assert!(matches!(digest_from_hex("abcd"), Err(FumError::SizeMismatch)));
    let full = "00010203040506070809101112131415161718192021222324252627282930ff";
    let d = digest_from_hex(full).unwrap();
    assert_eq!(digest(d.as_bytes()), full);
    let upper = digest_from_hex(&full.to_uppercase()).unwrap();
    assert!(d.eq_digest(&upper));
}

#[test]
fn frames_decode_in_sequence() {
    let mut buf: Vec<u8> = Vec::new();
    encode_u32(7, &mut buf);
    encode_string("name", &mut buf);
    encode_bytes(&vec![1, 2, 3], &mut buf);
    let (v, p) = decode_u32(&buf, 0).unwrap();
    let (s, p) = decode_string(&buf, p).unwrap();
    let (b, p) = decode_bytes(&buf, p).unwrap();
    assert_eq!(v, 7);
    assert_eq!(s, "name");
    assert_eq!(b, vec![1, 2, 3]);
    assert_eq!(p, buf.len());
}
