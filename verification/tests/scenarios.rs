//! End-to-end scenarios: a local copy, a remote copy through the exported
//! descriptor and the two-line record, and a full teardown chain.

use doca::Backend;
use doca::BufferInventory;
use doca::DMAEngine;
use doca::DOCAContext;
use doca::DOCAError;
use doca::DOCAMmap;
use doca::DOCARegisteredMemory;
use doca::DOCAWorkQueue;
use doca::PciAddress;
use doca::RawPointer;
use doca::devices;
use doca::load_config_bytes;
use doca::render_buffer_info;

fn poll_until_done(workq: &mut DOCAWorkQueue, b: &mut Backend) -> DOCAError {
    loop {
        match workq.poll_completion(b) {
            Ok(event) => {
                return event.result();
            },
            Err(e) => {
                if e == DOCAError::Again {
                    continue;
                } else {
                    panic!("polling failed");
                }
            },
        }
    }
}

#[test]
fn local_copy_moves_the_payload() {
    let mut b = Backend::new();
    b.register_device(PciAddress { bus: 0x17, device: 0x00, function: 0x0 }, 1 << 30);
    let length = 64;
    b.alloc_region(0x1000, length).unwrap();
    b.alloc_region(0x2000, length).unwrap();
    b.write_bytes(0x1000, &vec![b'A'; length]).unwrap();

    let device = devices(&b).unwrap().get(0).unwrap().open(&mut b).unwrap();
    let mut ctx = DOCAContext::new(DMAEngine::new().unwrap(), &vec![device.clone()], &mut b)
        .unwrap();
    let mut workq = DOCAWorkQueue::new(1, &mut ctx).unwrap();

    let mut mmap = DOCAMmap::new().unwrap();
    mmap.add_device(&device, &mut b).unwrap();
    let mut inv = BufferInventory::new(1024).unwrap();

    let mut src_buf = DOCARegisteredMemory::new(
        &mut mmap,
        RawPointer { inner: 0x1000, payload: length },
        &b,
    )
        .unwrap()
        .to_buffer(&mut inv, &mut mmap)
        .unwrap();
    src_buf.set_data(0, length).unwrap();

    let mut dst_buf = DOCARegisteredMemory::new(
        &mut mmap,
        RawPointer { inner: 0x2000, payload: length },
        &b,
    )
        .unwrap()
        .to_buffer(&mut inv, &mut mmap)
        .unwrap();
    dst_buf.set_data(0, length).unwrap();

    let job = workq.create_dma_job(src_buf, dst_buf);
    workq.submit(&job).expect("failed to submit the job");

    assert_eq!(poll_until_done(&mut workq, &mut b), DOCAError::Success);

    let src_after = b.read_bytes(0x1000, length).unwrap();
    let dst_after = b.read_bytes(0x2000, length).unwrap();
    assert_eq!(dst_after, src_after);
    assert_eq!(dst_after, vec![b'A'; length]);
}

#[test]
fn remote_copy_through_the_handoff() {
    // One backend stands for the DMA fabric both sides reach.
    let mut b = Backend::new();
    b.register_device(PciAddress { bus: 0x17, device: 0x00, function: 0x0 }, 1 << 30);
    let length = 48;

    // Side 1: its buffer, populated and exported, with the handoff payloads
    // written as the two byte strings that would go into the two files.
    b.alloc_region(0x7000, length).unwrap();
    let content: Vec<u8> = (0..length as u8).map(|x| x.wrapping_mul(3)).collect();
    b.write_bytes(0x7000, &content).unwrap();

    let dev1 = devices(&b).unwrap().get(0).unwrap().open(&mut b).unwrap();
    let mut map1 = DOCAMmap::new().unwrap();
    let idx1 = map1.add_device(&dev1, &mut b).unwrap();
    map1.populate(RawPointer { inner: 0x7000, payload: length }, &b).unwrap();
    let desc_bytes = map1.export(idx1).unwrap();
    let info_bytes = render_buffer_info(0x7000, length as u64);

    // Side 2: load the handoff, import the descriptor, and copy from the
    // remote buffer into a local one.
    let loaded = load_config_bytes(desc_bytes, &info_bytes).unwrap();
    let remote_range = loaded.remote_addr;
    assert_eq!(remote_range.inner, 0x7000);
    assert_eq!(remote_range.payload, length);

    let dev2 = devices(&b).unwrap().get(0).unwrap().open(&mut b).unwrap();
    let remote_map = DOCAMmap::new_from_export(&loaded.export_desc, &dev2, &mut b).unwrap();

    b.alloc_region(0x9000, length).unwrap();
    let mut local_map = DOCAMmap::new().unwrap();
    local_map.add_device(&dev2, &mut b).unwrap();

    let mut ctx = DOCAContext::new(DMAEngine::new().unwrap(), &vec![dev2.clone()], &mut b)
        .unwrap();
    let mut workq = DOCAWorkQueue::new(1, &mut ctx).unwrap();
    let mut inv = BufferInventory::new(16).unwrap();

    let mut remote_map = remote_map;
    let mut src_buf = DOCARegisteredMemory::new_from_remote(&remote_map, remote_range)
        .unwrap()
        .to_buffer(&mut inv, &mut remote_map)
        .unwrap();
    src_buf.set_data(0, length).unwrap();

    let mut dst_buf = DOCARegisteredMemory::new(
        &mut local_map,
        RawPointer { inner: 0x9000, payload: length },
        &b,
    )
        .unwrap()
        .to_buffer(&mut inv, &mut local_map)
        .unwrap();
    dst_buf.set_data(0, length).unwrap();

    let job = workq.create_dma_job(src_buf, dst_buf);
    workq.submit(&job).unwrap();
    assert_eq!(poll_until_done(&mut workq, &mut b), DOCAError::Success);

    let local_after = b.read_bytes(0x9000, length).unwrap();
    assert_eq!(local_after, content);
}

#[test]
fn teardown_chain_leaves_nothing_open() {
    let mut b = Backend::new();
    b.register_device(PciAddress { bus: 0x17, device: 0x00, function: 0x0 }, 1 << 30);
    b.register_device(PciAddress { bus: 0x3b, device: 0x00, function: 0x0 }, 1 << 30);
    let length = 32;
    b.alloc_region(0x1000, length).unwrap();
    b.alloc_region(0x2000, length).unwrap();

    // Build the full chain: engine, context, queue, inventory, buffers, map,
    // devices.
    let list = devices(&b).unwrap();
    let d0 = list.get(0).unwrap().open(&mut b).unwrap();
    let d1 = list.get(1).unwrap().open(&mut b).unwrap();
    let mut ctx = DOCAContext::new(
        DMAEngine::new().unwrap(),
        &vec![d0.clone(), d1.clone()],
        &mut b,
    ).unwrap();
    let mut workq = DOCAWorkQueue::new(4, &mut ctx).unwrap();
    let mut map = DOCAMmap::new().unwrap();
    map.add_device(&d0, &mut b).unwrap();
    let mut inv = BufferInventory::new(8).unwrap();
    let src = DOCARegisteredMemory::new(
        &mut map,
        RawPointer { inner: 0x1000, payload: length },
        &b,
    )
        .unwrap()
        .to_buffer(&mut inv, &mut map)
        .unwrap();
    let dst = DOCARegisteredMemory::new(
        &mut map,
        RawPointer { inner: 0x2000, payload: length },
        &b,
    )
        .unwrap()
        .to_buffer(&mut inv, &mut map)
        .unwrap();

    // Tear everything down in reverse-dependency order; every step must
    // report success.
    assert!(workq.destroy(&mut ctx).is_ok());
    let engine = ctx.destroy(&mut b);
    assert!(engine.is_ok());
    assert!(src.free(&mut inv, &mut map).is_ok());
    assert!(dst.free(&mut inv, &mut map).is_ok());
    assert_eq!(inv.allocated(), 0);
    assert_eq!(map.outstanding_buffers(), 0);
    assert!(map.destroy(&mut b).is_ok());
    assert!(d0.close(&mut b).is_ok());
    assert!(d1.close(&mut b).is_ok());

    // No open device handle and no registration survives the teardown.
    assert!(b.is_quiescent());
}

#[test]
fn teardown_in_the_wrong_order_is_refused() {
    let mut b = Backend::new();
    b.register_device(PciAddress { bus: 0x17, device: 0x00, function: 0x0 }, 1 << 30);
    let list = devices(&b).unwrap();
    let d0 = list.get(0).unwrap().open(&mut b).unwrap();
    let mut ctx = DOCAContext::new(DMAEngine::new().unwrap(), &vec![d0.clone()], &mut b).unwrap();
    let workq = DOCAWorkQueue::new(1, &mut ctx).unwrap();

    // The device is still registered with the context: closing it must fail,
    // not leave a dangling registration.
    assert_eq!(d0.clone().close(&mut b), Err(DOCAError::NotPermitted));

    // The context still has an attached queue: destroying it must fail.
    match ctx.destroy(&mut b) {
        Err(e) => assert_eq!(e, DOCAError::NotPermitted),
        Ok(_) => panic!("a context with an attached queue must refuse teardown"),
    }
    let _ = workq;
}

#[test]
fn teardown_after_export_still_releases_the_devices() {
    let mut b = Backend::new();
    b.register_device(PciAddress { bus: 0x17, device: 0x00, function: 0x0 }, 1 << 30);
    b.alloc_region(0x1000, 64).unwrap();
    let dev = devices(&b).unwrap().get(0).unwrap().open(&mut b).unwrap();
    let mut map = DOCAMmap::new().unwrap();
    let idx = map.add_device(&dev, &mut b).unwrap();
    map.populate(RawPointer { inner: 0x1000, payload: 64 }, &b).unwrap();
    let desc = map.export(idx).unwrap();

    // A remote map over the same descriptor, torn down as well.
    let remote = DOCAMmap::new_from_export(&desc, &dev, &mut b).unwrap();
    assert!(remote.destroy(&mut b).is_ok());

    // The exported map refuses explicit removal but its release still lets
    // the device close cleanly: nothing leaks.
    assert_eq!(map.rm_device(idx, &mut b), Err(DOCAError::NotPermitted));
    assert!(map.destroy(&mut b).is_ok());
    assert!(dev.close(&mut b).is_ok());
    assert!(b.is_quiescent());
}
