use yclass::bytes::ByteOrder;
use yclass::codec::{decode, decode_hex, encode, encode_float_bits, DisplayValue, EncodeError};
use yclass::field::FieldKind;

fn text(v: DisplayValue) -> String {
    match v {
        DisplayValue::Text(s) => s,
        other => panic!("expected text, got {:?}", other),
    }
}

#[test]
fn hex_decode_and_encode() {
    let k = FieldKind::Hex(4);
    let shown = text(decode(k, ByteOrder::Big, &vec![0xDE, 0xAD, 0xBE, 0xEF]));
    assert_eq!(shown, "DEADBEEF");
    let bytes = encode(k, ByteOrder::Big, "CAFEBABE").unwrap();
    assert_eq!(bytes, vec![0xCA, 0xFE, 0xBA, 0xBE]);
}

#[test]
fn hex_follows_little_endian_order() {
    let k = FieldKind::Hex(4);
    let shown = text(decode(k, ByteOrder::Little, &vec![0xDE, 0xAD, 0xBE, 0xEF]));
    assert_eq!(shown, "EFBEADDE");
    let bytes = encode(k, ByteOrder::Little, "CAFEBABE").unwrap();
    assert_eq!(bytes, vec![0xBE, 0xBA, 0xFE, 0xCA]);
    assert_eq!(text(decode(k, ByteOrder::Little, &bytes)), "CAFEBABE");
}

#[test]
fn int_accepts_leading_plus() {
    let k = FieldKind::Int(4, true);
    let b = encode(k, ByteOrder::Little, "+7").unwrap();
    assert_eq!(b, vec![7, 0, 0, 0]);
    let b2 = encode(k, ByteOrder::Little, "+007").unwrap();
    assert_eq!(text(decode(k, ByteOrder::Little, &b2)), "7");
    assert_eq!(encode(k, ByteOrder::Little, "+"), Err(EncodeError::InvalidNumber));
    assert_eq!(encode(k, ByteOrder::Little, "+-1"), Err(EncodeError::InvalidNumber));
    assert_eq!(encode(FieldKind::Int(1, false), ByteOrder::Little, "+256"), Err(EncodeError::OutOfRange));
    assert_eq!(encode(FieldKind::ClassPointer(1), ByteOrder::Big, "+16").unwrap(), vec![0, 0, 0, 0, 0, 0, 0, 16]);
}

#[test]
fn hex_is_case_insensitive_and_reads_back_upper() {
    let k = FieldKind::Hex(2);
    let bytes = encode(k, ByteOrder::Big, "a0fF").unwrap();
    assert_eq!(bytes, vec![0xA0, 0xFF]);
    assert_eq!(decode_hex(&bytes), "A0FF");
}

#[test]
fn hex_rejects_bad_text() {
    let k = FieldKind::Hex(2);
    assert_eq!(encode(k, ByteOrder::Little, "ABC"), Err(EncodeError::InvalidHex));
    assert_eq!(encode(k, ByteOrder::Little, "ABCDE0"), Err(EncodeError::InvalidHex));
    assert_eq!(encode(k, ByteOrder::Little, "ABCG"), Err(EncodeError::InvalidHex));
    assert_eq!(encode(k, ByteOrder::Little, ""), Err(EncodeError::InvalidHex));
}

#[test]
fn int_decodes_twos_complement() {
    let s = FieldKind::Int(4, true);
    let u = FieldKind::Int(4, false);
    let b = vec![0xFF, 0xFF, 0xFF, 0xFF];
    assert_eq!(text(decode(s, ByteOrder::Little, &b)), "-1");
    assert_eq!(text(decode(u, ByteOrder::Little, &b)), "4294967295");
    let c = vec![0x01, 0x02];
    assert_eq!(text(decode(FieldKind::Int(2, false), ByteOrder::Little, &c)), "513");
    assert_eq!(text(decode(FieldKind::Int(2, false), ByteOrder::Big, &c)), "258");
    assert_eq!(text(decode(FieldKind::Int(1, true), ByteOrder::Big, &vec![0x80])), "-128");
    assert_eq!(text(decode(FieldKind::Int(8, false), ByteOrder::Big, &vec![0; 8])), "0");
}

#[test]
fn int_encode_round_trips() {
    let k = FieldKind::Int(2, true);
    let b = encode(k, ByteOrder::Little, "-2").unwrap();
    assert_eq!(b, vec![0xFE, 0xFF]);
    assert_eq!(text(decode(k, ByteOrder::Little, &b)), "-2");
    let z = encode(k, ByteOrder::Little, "-0").unwrap();
    assert_eq!(text(decode(k, ByteOrder::Little, &z)), "0");
    let lead = encode(FieldKind::Int(4, false), ByteOrder::Big, "007").unwrap();
    assert_eq!(lead, vec![0, 0, 0, 7]);
    assert_eq!(text(decode(FieldKind::Int(4, false), ByteOrder::Big, &lead)), "7");
}

#[test]
fn int_range_limits() {
    let s8 = FieldKind::Int(1, true);
    assert_eq!(encode(s8, ByteOrder::Little, "127").unwrap(), vec![0x7F]);
    assert_eq!(encode(s8, ByteOrder::Little, "-128").unwrap(), vec![0x80]);
    assert_eq!(encode(s8, ByteOrder::Little, "128"), Err(EncodeError::OutOfRange));
    assert_eq!(encode(s8, ByteOrder::Little, "-129"), Err(EncodeError::OutOfRange));
    let u8k = FieldKind::Int(1, false);
    assert_eq!(encode(u8k, ByteOrder::Little, "255").unwrap(), vec![0xFF]);
    assert_eq!(encode(u8k, ByteOrder::Little, "-1"), Err(EncodeError::OutOfRange));
    let u64k = FieldKind::Int(8, false);
    assert_eq!(encode(u64k, ByteOrder::Little, "18446744073709551615").unwrap(), vec![0xFF; 8]);
    assert_eq!(encode(u64k, ByteOrder::Little, "18446744073709551616"), Err(EncodeError::OutOfRange));
    assert_eq!(encode(u64k, ByteOrder::Little, "99999999999999999999999"), Err(EncodeError::OutOfRange));
    let i64k = FieldKind::Int(8, true);
    let min = encode(i64k, ByteOrder::Little, "-9223372036854775808").unwrap();
    assert_eq!(text(decode(i64k, ByteOrder::Little, &min)), "-9223372036854775808");
}

#[test]
fn int_rejects_non_numbers() {
    let k = FieldKind::Int(4, true);
    assert_eq!(encode(k, ByteOrder::Little, ""), Err(EncodeError::InvalidNumber));
    assert_eq!(encode(k, ByteOrder::Little, "-"), Err(EncodeError::InvalidNumber));
    assert_eq!(encode(k, ByteOrder::Little, "12a"), Err(EncodeError::InvalidNumber));
    assert_eq!(encode(k, ByteOrder::Little, " 1"), Err(EncodeError::InvalidNumber));
}

#[test]
fn pointer_shows_address() {
    let k = FieldKind::ClassPointer(5);
    let b = vec![0x00, 0x20, 0, 0, 0, 0, 0, 0];
    assert_eq!(text(decode(k, ByteOrder::Little, &b)), "0x0000000000002000");
    let e = encode(k, ByteOrder::Little, "8192").unwrap();
    assert_eq!(e, b);
    assert_eq!(encode(k, ByteOrder::Little, "-1"), Err(EncodeError::OutOfRange));
}

#[test]
fn float_fields_hand_out_bits() {
    let b = encode_float_bits(4, 1.5f32.to_bits() as u64, ByteOrder::Little);
    assert_eq!(b, 1.5f32.to_le_bytes().to_vec());
    match decode(FieldKind::Float(4), ByteOrder::Little, &b) {
        DisplayValue::Float32Bits(bits) => assert_eq!(f32::from_bits(bits), 1.5),
        other => panic!("unexpected {:?}", other),
    }
    let nan = f64::NAN.to_bits();
    let b8 = encode_float_bits(8, nan, ByteOrder::Big);
    match decode(FieldKind::Float(8), ByteOrder::Big, &b8) {
        DisplayValue::Float64Bits(bits) => assert!(f64::from_bits(bits).is_nan()),
        other => panic!("unexpected {:?}", other),
    }
}
