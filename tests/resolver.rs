use yclass::bytes::ByteOrder;
use yclass::memory::{MemoryAccess, MemorySnapshot, NoMemory};
use yclass::resolver::{resolve, ChainStep, Resolution, Selection};

fn le(v: u64) -> Vec<u8> {
    v.to_le_bytes().to_vec()
}

#[test]
fn chain_follows_pointer() {
    let mut mem = MemorySnapshot::new();
    mem.add_region(0x1010, le(0x2000));
    let sel = Selection { base: 0x1000, steps: vec![ChainStep { offset: 0x10, dereference: true }] };
    assert_eq!(resolve(&mem, ByteOrder::Little, &sel), Resolution::Resolved(0x2000));
}

#[test]
fn chain_fails_on_unmapped_address() {
    let mem = MemorySnapshot::new();
    let sel = Selection { base: 0x1000, steps: vec![ChainStep { offset: 0x10, dereference: true }] };
    assert_eq!(resolve(&mem, ByteOrder::Little, &sel), Resolution::Failed { step: 0, current: 0x1010 });
}

#[test]
fn chain_reports_index_of_failing_step() {
    let mut mem = MemorySnapshot::new();
    mem.add_region(0x1008, le(0x3000));
    let sel = Selection {
        base: 0x1000,
        steps: vec![
            ChainStep { offset: 8, dereference: true },
            ChainStep { offset: 4, dereference: false },
            ChainStep { offset: 0x20, dereference: true },
            ChainStep { offset: 0, dereference: true },
        ],
    };
    assert_eq!(resolve(&mem, ByteOrder::Little, &sel), Resolution::Failed { step: 2, current: 0x3024 });
}

#[test]
fn chain_without_steps_is_base() {
    let sel = Selection { base: 0x4242, steps: vec![] };
    assert_eq!(resolve(&NoMemory, ByteOrder::Little, &sel), Resolution::Resolved(0x4242));
}

#[test]
fn no_memory_fails_every_read() {
    let sel = Selection { base: 0x10, steps: vec![ChainStep { offset: 0, dereference: false }, ChainStep { offset: 1, dereference: true }] };
    assert_eq!(resolve(&NoMemory, ByteOrder::Little, &sel), Resolution::Failed { step: 1, current: 0x11 });
    assert!(NoMemory.read(0, 1).is_none());
}

#[test]
fn offsets_wrap_around() {
    let sel = Selection { base: u64::MAX, steps: vec![ChainStep { offset: 2, dereference: false }] };
    assert_eq!(resolve(&NoMemory, ByteOrder::Little, &sel), Resolution::Resolved(1));
}

#[test]
fn big_endian_pointers() {
    let mut mem = MemorySnapshot::new();
    mem.add_region(0x100, vec![0, 0, 0, 0, 0, 0, 0x12, 0x34]);
    let sel = Selection { base: 0x100, steps: vec![ChainStep { offset: 0, dereference: true }] };
    assert_eq!(resolve(&mem, ByteOrder::Big, &sel), Resolution::Resolved(0x1234));
}

#[test]
fn snapshot_reads_inside_regions_only() {
    let mut mem = MemorySnapshot::new();
    mem.add_region(0x10, vec![1, 2, 3, 4]);
    assert_eq!(mem.read(0x11, 2), Some(vec![2, 3]));
    assert_eq!(mem.read(0x12, 3), None);
    assert_eq!(mem.read(0x0F, 1), None);
}

#[test]
fn snapshot_writes_inside_regions_only() {
    let mut mem = MemorySnapshot::new();
    mem.add_region(0x10, vec![1, 2, 3, 4]);
    assert!(mem.write(0x11, &vec![9, 8]));
    assert_eq!(mem.read(0x10, 4), Some(vec![1, 9, 8, 4]));
    assert!(!mem.write(0x13, &vec![0, 0]));
    assert_eq!(mem.read(0x10, 4), Some(vec![1, 9, 8, 4]));
}
