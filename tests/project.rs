use yclass::class::Class;
use yclass::field::{Field, FieldKind};
use yclass::project::{load, store, ProjectFormatError};
use yclass::registry::{ClassRegistry, PointerState};

fn pointer(id: u64, name: &str, target: u64) -> Field {
    Field { id, name: name.to_string(), kind: FieldKind::ClassPointer(target) }
}

fn same(a: &ClassRegistry, b: &ClassRegistry) {
    assert_eq!(a.classes.len(), b.classes.len());
    for (x, y) in a.classes.iter().zip(b.classes.iter()) {
        assert_eq!(x.id, y.id);
        assert_eq!(x.name, y.name);
        assert_eq!(x.fields.len(), y.fields.len());
        for (f, g) in x.fields.iter().zip(y.fields.iter()) {
            assert_eq!(f.id, g.id);
            assert_eq!(f.name, g.name);
            assert_eq!(f.kind, g.kind);
        }
    }
}

#[test]
fn deleted_target_leaves_pointer_broken() {
    let mut reg = ClassRegistry::new();
    let a = reg.create_class("A".to_string());
    let b = reg.create_class("B".to_string());
    let mut ca = reg.get(a).unwrap().duplicate();
    ca.add_field(pointer(1, "next", b), None);
    assert!(reg.replace_class(ca));
    let kind = reg.get(a).unwrap().fields[0].kind;
    assert_eq!(reg.pointer_state(kind), Some(PointerState::Valid));
    assert!(reg.delete_class(b).is_some());
    assert!(!reg.contains(b));
    assert_eq!(reg.pointer_state(kind), Some(PointerState::Broken));
    assert_eq!(reg.get(a).unwrap().fields.len(), 1);

    let text = store(&reg);
    let back = load(&text).unwrap();
    same(&reg, &back);
    let k2 = back.get(a).unwrap().fields[0].kind;
    assert_eq!(k2, FieldKind::ClassPointer(b));
    assert_eq!(back.pointer_state(k2), Some(PointerState::Broken));
}

#[test]
fn cyclic_classes_round_trip() {
    let mut reg = ClassRegistry::new();
    let a = reg.create_class("A".to_string());
    let b = reg.create_class("B".to_string());
    let mut ca = reg.get(a).unwrap().duplicate();
    ca.add_field(pointer(10, "to_b", b), None);
    ca.add_field(Field { id: 11, name: "hp".to_string(), kind: FieldKind::Int(4, true) }, None);
    let mut cb = reg.get(b).unwrap().duplicate();
    cb.add_field(pointer(12, "to_a", a), None);
    assert!(reg.replace_class(ca));
    assert!(reg.replace_class(cb));

    let back = load(&store(&reg)).unwrap();
    same(&reg, &back);
    let fa = back.get(a).unwrap().fields[0].kind;
    let fb = back.get(b).unwrap().fields[0].kind;
    assert_eq!(fa, FieldKind::ClassPointer(b));
    assert_eq!(fb, FieldKind::ClassPointer(a));
    assert_eq!(back.pointer_state(fa), Some(PointerState::Valid));
    assert_eq!(back.pointer_state(fb), Some(PointerState::Valid));
}

#[test]
fn every_kind_and_odd_names_round_trip() {
    let mut reg = ClassRegistry::new();
    let mut c = Class::new(7, "Naïve struct\nwith break".to_string());
    c.add_field(Field { id: 1, name: "".to_string(), kind: FieldKind::Hex(8) }, None);
    c.add_field(Field { id: 2, name: "u".to_string(), kind: FieldKind::Int(2, false) }, None);
    c.add_field(Field { id: 3, name: "i".to_string(), kind: FieldKind::Int(1, true) }, None);
    c.add_field(Field { id: 4, name: "f 🚀".to_string(), kind: FieldKind::Float(8) }, None);
    c.add_field(Field { id: 5, name: "p".to_string(), kind: FieldKind::ClassPointer(u64::MAX) }, None);
    assert!(reg.insert_class(c));
    assert!(reg.insert_class(Class::new(3, "Empty".to_string())));
    let back = load(&store(&reg)).unwrap();
    same(&reg, &back);
    assert_eq!(back.get(7).unwrap().size(), 27);
}

#[test]
fn empty_registry_round_trips() {
    let reg = ClassRegistry::new();
    let text = store(&reg);
    let back = load(&text).unwrap();
    assert_eq!(back.classes.len(), 0);
}

#[test]
fn other_version_is_refused() {
    let reg = ClassRegistry::new();
    let text = store(&reg);
    let changed = text.replacen("0000000000000001", "0000000000000002", 1);
    assert_eq!(load(&changed).err(), Some(ProjectFormatError::UnsupportedVersion));
}

#[test]
fn malformed_text_is_refused() {
    assert_eq!(load("").err(), Some(ProjectFormatError::Malformed));
    assert_eq!(load("hello").err(), Some(ProjectFormatError::Malformed));
    let mut reg = ClassRegistry::new();
    reg.create_class("A".to_string());
    let text = store(&reg);
    let cut = &text[..text.len() - 17];
    assert_eq!(load(cut).err(), Some(ProjectFormatError::Malformed));
    let extra = format!("{}{}", text, "0000000000000000\n");
    assert_eq!(load(&extra).err(), Some(ProjectFormatError::Malformed));
}

#[test]
fn duplicate_class_ids_are_refused() {
    let mut reg = ClassRegistry::new();
    reg.create_class("A".to_string());
    let text = store(&reg);
    // declare two classes and repeat the one record
    let lines: Vec<&str> = text.lines().collect();
    let mut doubled = String::new();
    doubled.push_str(lines[0]);
    doubled.push('\n');
    doubled.push_str("0000000000000002\n");
    for _ in 0..2 {
        for l in &lines[2..] {
            doubled.push_str(l);
            doubled.push('\n');
        }
    }
    assert_eq!(load(&doubled).err(), Some(ProjectFormatError::Malformed));
}

#[test]
fn class_ids_stay_fresh_after_load() {
    let mut reg = ClassRegistry::new();
    let a = reg.create_class("A".to_string());
    let mut back = load(&store(&reg)).unwrap();
    let b = back.create_class("B".to_string());
    assert_ne!(a, b);
}
