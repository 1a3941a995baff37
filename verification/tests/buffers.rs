//! Buffer inventories, buffer descriptors and the active sub-range rule.

use doca::Backend;
use doca::BufferInventory;
use doca::DOCAError;
use doca::DOCAMmap;
use doca::DOCARegisteredMemory;
use doca::PciAddress;
use doca::RawPointer;

fn backend_with_region(base: u64, len: usize) -> Backend {
    let mut b = Backend::new();
    b.register_device(PciAddress { bus: 0x17, device: 0x00, function: 0x0 }, 1 << 30);
    b.alloc_region(base, len).unwrap();
    b
}

#[test]
fn test_basic_buffer_inv() {
    let b = backend_with_region(0x1000, 64);
    let mut doca_mmap = DOCAMmap::new().unwrap();
    let mut inv = BufferInventory::new(1024).unwrap();

    let test_len = 64;
    let raw_pointer = RawPointer { inner: 0x1000, payload: test_len };

    let registered_memory = DOCARegisteredMemory::new(&mut doca_mmap, raw_pointer, &b).unwrap();
    let buf = registered_memory.to_buffer(&mut inv, &mut doca_mmap).unwrap();

    let data = buf.get_data().unwrap();
    assert_eq!(data, 0x1000);
}

#[test]
fn buffer_test_basic_buffer_inv() {
    let b = backend_with_region(0x2000, 64);
    let mut doca_mmap = DOCAMmap::new().unwrap();
    let mut inv = BufferInventory::new(1024).unwrap();

    let test_len = 64;
    let raw_pointer = RawPointer { inner: 0x2000, payload: test_len };

    let registered_memory = DOCARegisteredMemory::new(&mut doca_mmap, raw_pointer, &b).unwrap();
    let buf = registered_memory.to_buffer(&mut inv, &mut doca_mmap).unwrap();

    let data = buf.get_data().unwrap();
    assert_eq!(data, 0x2000);
}

#[test]
fn active_range_is_bounded_by_the_head() {
    let b = backend_with_region(0x1000, 64);
    let mut map = DOCAMmap::new().unwrap();
    let mut inv = BufferInventory::new(4).unwrap();
    let rm = DOCARegisteredMemory::new(
        &mut map,
        RawPointer { inner: 0x1000, payload: 64 },
        &b,
    ).unwrap();
    let mut buf = rm.to_buffer(&mut inv, &mut map).unwrap();

    // Within the head: accepted, and the active pointer moves with the
    // offset.
    assert!(buf.set_data(0, 64).is_ok());
    assert_eq!(buf.get_data().unwrap(), 0x1000);
    assert!(buf.set_data(16, 48).is_ok());
    assert_eq!(buf.get_data().unwrap(), 0x1000 + 16);
    assert!(buf.set_data(63, 1).is_ok());
    assert_eq!(buf.get_data().unwrap(), 0x1000 + 63);

    // Past the head: rejected, and the previous sub-range stays.
    assert_eq!(buf.set_data(16, 49), Err(DOCAError::InvalidValue));
    assert_eq!(buf.set_data(65, 0), Err(DOCAError::InvalidValue));
    assert_eq!(buf.get_data().unwrap(), 0x1000 + 63);
}

#[test]
fn inventory_capacity_is_enforced() {
    let b = backend_with_region(0x1000, 4096);
    let mut map = DOCAMmap::new().unwrap();
    let mut inv = BufferInventory::new(2).unwrap();
    let r1 = DOCARegisteredMemory::new(&mut map, RawPointer { inner: 0x1000, payload: 16 }, &b)
        .unwrap();
    let r2 = DOCARegisteredMemory::new(&mut map, RawPointer { inner: 0x1010, payload: 16 }, &b)
        .unwrap();
    let r3 = DOCARegisteredMemory::new(&mut map, RawPointer { inner: 0x1020, payload: 16 }, &b)
        .unwrap();
    let b1 = r1.to_buffer(&mut inv, &mut map).unwrap();
    let _b2 = r2.to_buffer(&mut inv, &mut map).unwrap();
    match r3.to_buffer(&mut inv, &mut map) {
        Err(e) => assert_eq!(e, DOCAError::NoMemory),
        Ok(_) => panic!("the inventory holds only two descriptors"),
    }
    assert_eq!(inv.allocated(), 2);
    // Freeing one descriptor makes room again.
    b1.free(&mut inv, &mut map).unwrap();
    assert_eq!(inv.allocated(), 1);
    let r4 = DOCARegisteredMemory::new(&mut map, RawPointer { inner: 0x1030, payload: 16 }, &b)
        .unwrap();
    assert!(r4.to_buffer(&mut inv, &mut map).is_ok());
}

#[test]
fn to_buffer_requires_a_registered_range() {
    let b = backend_with_region(0x1000, 4096);
    let mut map = DOCAMmap::new().unwrap();
    let mut inv = BufferInventory::new(4).unwrap();
    map.populate(RawPointer { inner: 0x1000, payload: 64 }, &b).unwrap();
    // A range the map covers is accepted even on the remote path.
    let ok = DOCARegisteredMemory::new_from_remote(&map, RawPointer { inner: 0x1010, payload: 16 });
    assert!(ok.is_ok());
    assert!(ok.unwrap().to_buffer(&mut inv, &mut map).is_ok());
    // A range outside every registered chunk is rejected.
    let bad = DOCARegisteredMemory::new_from_remote(
        &map,
        RawPointer { inner: 0x2000, payload: 16 },
    );
    match bad {
        Err(e) => assert_eq!(e, DOCAError::InvalidValue),
        Ok(_) => panic!("the map covers no such range"),
    }
}
