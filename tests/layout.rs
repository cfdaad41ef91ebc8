use yclass::class::Class;
use yclass::field::{next_id, Field, FieldKind, FieldResponse, IdAllocator, NamedState};

fn field(alloc: &mut IdAllocator, name: &str, kind: FieldKind) -> Field {
    Field { id: next_id(alloc), name: name.to_string(), kind }
}

#[test]
fn player_class_layout() {
    let mut alloc = IdAllocator::new();
    let mut c = Class::new(1, "Player".to_string());
    let health = field(&mut alloc, "health", FieldKind::Int(4, true));
    let x = field(&mut alloc, "x", FieldKind::Float(4));
    c.add_field(health, None);
    c.add_field(x, None);
    assert_eq!(c.size(), 8);
    assert_eq!(c.fields[1].name, "x");
    assert_eq!(c.offset(1), 4);
}

#[test]
fn empty_class_has_size_zero() {
    let c = Class::new(3, "Empty".to_string());
    assert_eq!(c.size(), 0);
    assert_eq!(c.offset(0), 0);
}

#[test]
fn insert_at_position_shifts_later_fields() {
    let mut alloc = IdAllocator::new();
    let mut c = Class::new(1, "C".to_string());
    c.add_field(field(&mut alloc, "a", FieldKind::Int(4, false)), None);
    c.add_field(field(&mut alloc, "b", FieldKind::Hex(2)), None);
    let at = c.add_field(field(&mut alloc, "p", FieldKind::ClassPointer(9)), Some(1));
    assert_eq!(at, 1);
    assert_eq!(c.fields[1].name, "p");
    assert_eq!(c.offset(2), 12);
    assert_eq!(c.size(), 14);
    let end = c.add_field(field(&mut alloc, "z", FieldKind::Hex(1)), Some(99));
    assert_eq!(end, 3);
    assert_eq!(c.size(), 15);
}

#[test]
fn remove_shifts_later_offsets_by_width() {
    let mut alloc = IdAllocator::new();
    let mut c = Class::new(1, "C".to_string());
    let a = field(&mut alloc, "a", FieldKind::Int(2, false));
    let b = field(&mut alloc, "b", FieldKind::Hex(8));
    let d = field(&mut alloc, "d", FieldKind::Int(4, true));
    let b_id = b.id;
    c.add_field(a, None);
    c.add_field(b, None);
    c.add_field(d, None);
    assert_eq!(c.offset(2), 10);
    let removed = c.remove_field(b_id).unwrap();
    assert_eq!(removed.name, "b");
    assert_eq!(c.offset(0), 0);
    assert_eq!(c.offset(1), 2);
    assert_eq!(c.size(), 6);
    assert!(c.remove_field(b_id).is_none());
    assert_eq!(c.size(), 6);
}

#[test]
fn change_kind_resizes() {
    let mut alloc = IdAllocator::new();
    let mut c = Class::new(1, "C".to_string());
    let a = field(&mut alloc, "a", FieldKind::Int(1, false));
    let a_id = a.id;
    c.add_field(a, None);
    c.add_field(field(&mut alloc, "b", FieldKind::Int(4, false)), None);
    assert_eq!(c.offset(1), 1);
    assert!(c.change_field_kind(a_id, FieldKind::Float(8)));
    assert_eq!(c.offset(1), 8);
    assert_eq!(c.size(), 12);
    assert_eq!(c.fields[0].name, "a");
    assert!(!c.change_field_kind(12345, FieldKind::Hex(1)));
}

#[test]
fn ids_are_never_reused() {
    let mut alloc = IdAllocator::new();
    let a = next_id(&mut alloc);
    let b = next_id(&mut alloc);
    let c = next_id(&mut alloc);
    assert_eq!(a, 0);
    assert!(a < b && b < c);
}

#[test]
fn named_state_starts_idle() {
    let s = NamedState::new("health".to_string());
    assert_eq!(s.name, "health");
    assert!(!s.editing);
    assert!(!s.request_focus);
    assert_eq!(FieldResponse::Selected(3), FieldResponse::Selected(3));
}

#[test]
fn move_keeps_size_and_reorders() {
    let mut alloc = IdAllocator::new();
    let mut c = Class::new(1, "C".to_string());
    let a = field(&mut alloc, "a", FieldKind::Int(1, false));
    let a_id = a.id;
    c.add_field(a, None);
    c.add_field(field(&mut alloc, "b", FieldKind::Int(8, false)), None);
    c.add_field(field(&mut alloc, "c", FieldKind::Int(2, false)), None);
    assert!(c.move_field(a_id, 5));
    assert_eq!(c.fields[2].name, "a");
    assert_eq!(c.offset(2), 10);
    assert_eq!(c.size(), 11);
    assert!(!c.move_field(999, 0));
}
