use yclass::bytes::ByteOrder;
use yclass::class::Class;
use yclass::codec::{DisplayValue, EncodeError};
use yclass::field::{Field, FieldKind};
use yclass::inspect::{read_field, write_field, EditError};
use yclass::memory::{MemoryAccess, MemorySnapshot, NoMemory};

fn player() -> Class {
    let mut c = Class::new(1, "Player".to_string());
    c.add_field(Field { id: 1, name: "health".to_string(), kind: FieldKind::Int(4, true) }, None);
    c.add_field(Field { id: 2, name: "x".to_string(), kind: FieldKind::Float(4) }, None);
    c.add_field(Field { id: 3, name: "tag".to_string(), kind: FieldKind::Hex(2) }, None);
    c
}

#[test]
fn fields_decode_at_their_offsets() {
    let mut mem = MemorySnapshot::new();
    let mut data = vec![];
    data.extend_from_slice(&100i32.to_le_bytes());
    data.extend_from_slice(&2.5f32.to_le_bytes());
    data.extend_from_slice(&[0xAB, 0xCD]);
    mem.add_region(0x5000, data);
    let c = player();
    match read_field(&mem, ByteOrder::Little, 0x5000, &c, 0) {
        Some(DisplayValue::Text(s)) => assert_eq!(s, "100"),
        other => panic!("unexpected {:?}", other),
    }
    match read_field(&mem, ByteOrder::Little, 0x5000, &c, 1) {
        Some(DisplayValue::Float32Bits(b)) => assert_eq!(f32::from_bits(b), 2.5),
        other => panic!("unexpected {:?}", other),
    }
    match read_field(&mem, ByteOrder::Little, 0x5000, &c, 2) {
        Some(DisplayValue::Text(s)) => assert_eq!(s, "CDAB"),
        other => panic!("unexpected {:?}", other),
    }
    assert!(read_field(&mem, ByteOrder::Little, 0x5001, &c, 2).is_none());
    assert!(read_field(&NoMemory, ByteOrder::Little, 0x5000, &c, 0).is_none());
}

#[test]
fn editing_writes_encoded_bytes() {
    let mut mem = MemorySnapshot::new();
    mem.add_region(0x5000, vec![0; 10]);
    let c = player();
    assert_eq!(write_field(&mut mem, ByteOrder::Little, 0x5000, &c, 0, "-2"), Ok(()));
    assert_eq!(write_field(&mut mem, ByteOrder::Little, 0x5000, &c, 2, "beef"), Ok(()));
    assert_eq!(mem.read(0x5000, 10), Some(vec![0xFE, 0xFF, 0xFF, 0xFF, 0, 0, 0, 0, 0xEF, 0xBE]));
    assert_eq!(
        write_field(&mut mem, ByteOrder::Little, 0x5000, &c, 0, "abc"),
        Err(EditError::Encode(EncodeError::InvalidNumber))
    );
    assert_eq!(write_field(&mut mem, ByteOrder::Little, 0x5004, &c, 2, "0000"), Err(EditError::Unwritable));
    let mut none = NoMemory;
    assert_eq!(write_field(&mut none, ByteOrder::Little, 0, &c, 0, "1"), Err(EditError::Unwritable));
}
