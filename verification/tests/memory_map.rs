//! Memory map lifecycle: population, export, import, and the
//! removal-forbidden rule of exported and remote maps.

use doca::Backend;
use doca::DOCAError;
use doca::DOCAMmap;
use doca::PciAddress;
use doca::RawPointer;
use doca::devices;

fn backend_one_device() -> Backend {
    let mut b = Backend::new();
    b.register_device(PciAddress { bus: 0x17, device: 0x00, function: 0x0 }, 1 << 30);
    b
}

#[test]
fn test_memory_create() {
    let mut b = backend_one_device();
    let device_ctx = devices(&b).unwrap().get(0).unwrap().open(&mut b).unwrap();
    let mut doca_mmap = DOCAMmap::new().unwrap();
    doca_mmap.add_device(&device_ctx, &mut b).unwrap();

    let test_len = 1024;
    b.alloc_region(0x1000, test_len).unwrap();
    let mr = RawPointer { inner: 0x1000, payload: test_len };

    doca_mmap.populate(mr, &b).unwrap();
}

#[test]
fn mod_test_memory_create() {
    let mut b = backend_one_device();
    let device_ctx = devices(&b).unwrap().get(0).unwrap().open(&mut b).unwrap();
    let mut doca_mmap = DOCAMmap::new().unwrap();
    doca_mmap.add_device(&device_ctx, &mut b).unwrap();

    let test_len = 1024;
    b.alloc_region(0x8000, test_len).unwrap();
    let mr = RawPointer { inner: 0x8000, payload: test_len };

    doca_mmap.populate(mr, &b).unwrap();
}

#[test]
fn test_mmap_rm_device() {
    let mut b = backend_one_device();
    let device_ctx = devices(&b).unwrap().get(0).unwrap().open(&mut b).unwrap();
    let mut doca_mmap = DOCAMmap::new().unwrap();
    let dev_idx = doca_mmap.add_device(&device_ctx, &mut b).unwrap();

    let test_len = 1024;
    b.alloc_region(0x1000, test_len).unwrap();
    let mr = RawPointer { inner: 0x1000, payload: test_len };

    doca_mmap.populate(mr, &b).unwrap();

    let _ = doca_mmap.export(dev_idx).unwrap();

    assert!(!doca_mmap.rm_device(dev_idx, &mut b).is_ok());
}

#[test]
fn exported_map_rejects_every_removal() {
    let mut b = backend_one_device();
    let dev = devices(&b).unwrap().get(0).unwrap().open(&mut b).unwrap();
    let mut map = DOCAMmap::new().unwrap();
    let idx = map.add_device(&dev, &mut b).unwrap();
    b.alloc_region(0x1000, 64).unwrap();
    map.populate(RawPointer { inner: 0x1000, payload: 64 }, &b).unwrap();
    map.export(idx).unwrap();
    for _ in 0..3 {
        match map.rm_device(idx, &mut b) {
            Err(e) => assert_eq!(e, DOCAError::NotPermitted),
            Ok(_) => panic!("removal from an exported map must fail"),
        }
    }
    // Adding is equally forbidden once exported.
    match map.add_device(&dev, &mut b) {
        Err(e) => assert_eq!(e, DOCAError::NotPermitted),
        Ok(_) => panic!("adding to an exported map must fail"),
    }
}

#[test]
fn remote_map_rejects_removal() {
    let mut b = backend_one_device();
    let dev = devices(&b).unwrap().get(0).unwrap().open(&mut b).unwrap();
    let mut map = DOCAMmap::new().unwrap();
    let idx = map.add_device(&dev, &mut b).unwrap();
    b.alloc_region(0x1000, 64).unwrap();
    map.populate(RawPointer { inner: 0x1000, payload: 64 }, &b).unwrap();
    let desc = map.export(idx).unwrap();

    let remote = DOCAMmap::new_from_export(&desc, &dev, &mut b);
    let mut remote = remote.unwrap();
    match remote.rm_device(0, &mut b) {
        Err(e) => assert_eq!(e, DOCAError::NotPermitted),
        Ok(_) => panic!("removal from a remote map must fail"),
    }
    // A remote map is never populated either.
    match remote.populate(RawPointer { inner: 0x1000, payload: 64 }, &b) {
        Err(e) => assert_eq!(e, DOCAError::NotPermitted),
        Ok(_) => panic!("population of a remote map must fail"),
    }
}

#[test]
fn populate_rejects_unbacked_and_empty_ranges() {
    let mut b = backend_one_device();
    let dev = devices(&b).unwrap().get(0).unwrap().open(&mut b).unwrap();
    let mut map = DOCAMmap::new().unwrap();
    map.add_device(&dev, &mut b).unwrap();
    b.alloc_region(0x1000, 64).unwrap();
    // Not allocated at all.
    assert_eq!(
        map.populate(RawPointer { inner: 0x9000, payload: 64 }, &b),
        Err(DOCAError::InvalidValue)
    );
    // Runs past the end of the region.
    assert_eq!(
        map.populate(RawPointer { inner: 0x1020, payload: 64 }, &b),
        Err(DOCAError::InvalidValue)
    );
    // Empty.
    assert_eq!(
        map.populate(RawPointer { inner: 0x1000, payload: 0 }, &b),
        Err(DOCAError::InvalidValue)
    );
    // A sub-range of the region is fine.
    assert!(map.populate(RawPointer { inner: 0x1020, payload: 32 }, &b).is_ok());
}

#[test]
fn populate_respects_chunk_limit() {
    let mut b = backend_one_device();
    let mut map = DOCAMmap::new_with_arg(2).unwrap();
    b.alloc_region(0x1000, 4096).unwrap();
    assert!(map.populate(RawPointer { inner: 0x1000, payload: 16 }, &b).is_ok());
    assert!(map.populate(RawPointer { inner: 0x1010, payload: 16 }, &b).is_ok());
    assert_eq!(
        map.populate(RawPointer { inner: 0x1020, payload: 16 }, &b),
        Err(DOCAError::NoMemory)
    );
}

#[test]
fn export_import_carries_the_ranges() {
    let mut b = backend_one_device();
    let dev = devices(&b).unwrap().get(0).unwrap().open(&mut b).unwrap();
    let mut map = DOCAMmap::new().unwrap();
    let idx = map.add_device(&dev, &mut b).unwrap();
    b.alloc_region(0x4000, 256).unwrap();
    map.populate(RawPointer { inner: 0x4000, payload: 128 }, &b).unwrap();
    map.populate(RawPointer { inner: 0x4080, payload: 128 }, &b).unwrap();
    let desc = map.export(idx).unwrap();
    assert!(desc.len() <= 2048);

    let remote = DOCAMmap::new_from_export(&desc, &dev, &mut b).unwrap();
    // Both exported ranges are visible through the imported map.
    assert!(remote.covers(0x4000, 128));
    assert!(remote.covers(0x4080, 128));
    assert!(remote.covers(0x40f0, 16));
    assert!(!remote.covers(0x4000, 256));
}

#[test]
fn malformed_descriptor_is_rejected() {
    let mut b = backend_one_device();
    let dev = devices(&b).unwrap().get(0).unwrap().open(&mut b).unwrap();
    let garbage = vec![1u8, 2, 3];
    match DOCAMmap::new_from_export(&garbage, &dev, &mut b) {
        Err(e) => assert_eq!(e, DOCAError::InvalidValue),
        Ok(_) => panic!("a three-byte descriptor is malformed"),
    }
    let empty: Vec<u8> = Vec::new();
    assert!(DOCAMmap::new_from_export(&empty, &dev, &mut b).is_err());
}

#[test]
fn export_error_kinds() {
    let mut b = backend_one_device();
    let dev = devices(&b).unwrap().get(0).unwrap().open(&mut b).unwrap();
    let mut map = DOCAMmap::new().unwrap();
    let idx = map.add_device(&dev, &mut b).unwrap();
    b.alloc_region(0x1000, 64).unwrap();
    map.populate(RawPointer { inner: 0x1000, payload: 64 }, &b).unwrap();
    // An unknown registration index is rejected as an invalid value, and a
    // failed export does not forbid later removal.
    assert_eq!(map.export(idx + 1).err(), Some(DOCAError::InvalidValue));
    assert!(map.rm_device(idx, &mut b).is_ok());
}

#[test]
fn stale_handle_cannot_build_a_remote_map() {
    let mut b = backend_one_device();
    let dev = devices(&b).unwrap().get(0).unwrap().open(&mut b).unwrap();
    let mut map = DOCAMmap::new().unwrap();
    let idx = map.add_device(&dev, &mut b).unwrap();
    b.alloc_region(0x1000, 64).unwrap();
    map.populate(RawPointer { inner: 0x1000, payload: 64 }, &b).unwrap();
    let desc = map.export(idx).unwrap();
    let stale = dev.clone();
    map.destroy(&mut b).unwrap();
    dev.close(&mut b).unwrap();
    // The handle was closed: importing through it is not permitted.
    assert_eq!(
        DOCAMmap::new_from_export(&desc, &stale, &mut b).err(),
        Some(DOCAError::NotPermitted)
    );
}
