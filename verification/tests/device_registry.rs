//! Enumeration, formatted addresses, and opening devices by address.

use doca::Backend;
use doca::DOCAError;
use doca::PciAddress;
use doca::device::parse_pci_addr;
use doca::devices;
use doca::open_device_with_pci;

fn backend_with_devices() -> Backend {
    let mut b = Backend::new();
    b.register_device(PciAddress { bus: 0x17, device: 0x00, function: 0x0 }, 1 << 30);
    b.register_device(PciAddress { bus: 0x3b, device: 0x1f, function: 0x1 }, 1 << 30);
    b.register_device(PciAddress { bus: 0xaf, device: 0x00, function: 0x2 }, 1 << 30);
    b.register_device(PciAddress { bus: 0xaf, device: 0x00, function: 0x3 }, 1 << 30);
    b
}

#[test]
fn test_get_device_and_check() {
    let b = backend_with_devices();
    let ret = devices(&b);
    assert!(ret.is_ok());

    let devices = ret.unwrap();

    println!("len: {}", devices.len());
    assert_ne!(devices.len(), 0);

    for i in 0..devices.num_devices() {
        let device = devices.get(i).unwrap();
        let pci_addr = device.name();
        println!("device pci addr {}", pci_addr);
    }
}

#[test]
fn test_get_and_open_a_device() {
    let mut b = backend_with_devices();
    let list = devices(&b).unwrap();
    let device = list.get(0).unwrap().open(&mut b);
    assert!(device.is_ok());
}

#[test]
fn test_dev_max_buf() {
    let b = backend_with_devices();
    let device = devices(&b).unwrap().get(0).unwrap();
    let ret = device.get_max_buf_size(&b);
    assert!(ret.is_ok());
    println!("max buf size: {}", ret.unwrap());
}

#[test]
fn device_list_get_in_and_out_of_range() {
    let b = backend_with_devices();
    let list = devices(&b).unwrap();
    let n = list.len();
    assert_eq!(n, 4);
    for i in 0..n {
        assert!(list.get(i).is_some());
    }
    assert!(list.get(n).is_none());
    assert!(list.get(n + 100).is_none());
    assert!(!list.is_empty());
}

#[test]
fn enumerate_without_devices_is_not_found() {
    let b = Backend::new();
    match devices(&b) {
        Err(e) => assert_eq!(e, DOCAError::NotFound),
        Ok(_) => panic!("enumeration of an empty device table must fail"),
    }
}

#[test]
fn formatted_name_is_exact() {
    let b = backend_with_devices();
    let list = devices(&b).unwrap();
    assert_eq!(list.get(0).unwrap().name(), "17:00.0");
    assert_eq!(list.get(1).unwrap().name(), "3b:1f.1");
    assert_eq!(list.get(2).unwrap().name(), "af:00.2");
}

#[test]
fn parse_format_roundtrip() {
    let b = backend_with_devices();
    let list = devices(&b).unwrap();
    for i in 0..list.len() {
        let dev = list.get(i).unwrap();
        let name = dev.name();
        let parsed = parse_pci_addr(name.as_str()).unwrap();
        assert_eq!(parsed, dev.address());
    }
    assert_eq!(
        parse_pci_addr("3B:1F.1"),
        Some(PciAddress { bus: 0x3b, device: 0x1f, function: 0x1 })
    );
    assert_eq!(parse_pci_addr("3b:1f"), None);
    assert_eq!(parse_pci_addr("3g:00.0"), None);
    assert_eq!(parse_pci_addr(""), None);
}

#[test]
fn open_by_address_matches_case_insensitively() {
    let mut b = backend_with_devices();
    let opened = open_device_with_pci(&mut b, "3B:1F.1");
    assert!(opened.is_ok());
    let again = open_device_with_pci(&mut b, "3b:1f.1");
    assert!(again.is_ok());
}

#[test]
fn open_by_address_reopens_same_device() {
    let mut b = backend_with_devices();
    let list = devices(&b).unwrap();
    let dev = list.get(2).unwrap();
    let name = dev.name();
    let opened = open_device_with_pci(&mut b, name.as_str());
    assert!(opened.is_ok());
    // The handle denotes the device with that formatted address: closing it
    // leaves the backend quiescent again.
    assert!(opened.unwrap().close(&mut b).is_ok());
    assert!(b.is_quiescent());
}

#[test]
fn open_by_address_unknown_is_not_found() {
    let mut b = backend_with_devices();
    match open_device_with_pci(&mut b, "99:00.7") {
        Err(e) => assert_eq!(e, DOCAError::NotFound),
        Ok(_) => panic!("no device has that address"),
    }
    match open_device_with_pci(&mut b, "not an address") {
        Err(e) => assert_eq!(e, DOCAError::NotFound),
        Ok(_) => panic!("malformed address can match no device"),
    }
}
