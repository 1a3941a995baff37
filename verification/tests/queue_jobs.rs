//! Contexts, work queues, job creation, queue depth and the retry signal.

use doca::Backend;
use doca::BufferInventory;
use doca::DMAEngine;
use doca::DOCAContext;
use doca::DOCAError;
use doca::DOCAMmap;
use doca::DOCARegisteredMemory;
use doca::DOCAWorkQueue;
use doca::PciAddress;
use doca::RawPointer;
use doca::devices;

fn backend_one_device() -> Backend {
    let mut b = Backend::new();
    b.register_device(PciAddress { bus: 0x17, device: 0x00, function: 0x0 }, 1 << 30);
    b
}

#[test]
fn test_worker_queue_create() {
    let mut b = backend_one_device();
    let device = devices(&b).unwrap().get(0).unwrap().open(&mut b).unwrap();

    let dma = DMAEngine::new().unwrap();

    let ctx_devs = vec![device];
    let mut ctx = DOCAContext::new(dma, &ctx_devs, &mut b).unwrap();

    let workq = DOCAWorkQueue::new(1, &mut ctx).unwrap();

    assert_eq!(workq.depth(), 1);
}

#[test]
fn work_queue_test_worker_queue_create() {
    let mut b = backend_one_device();
    let device = devices(&b).unwrap().get(0).unwrap().open(&mut b).unwrap();

    let ctx_devs = vec![device];
    let mut ctx = DOCAContext::new(DMAEngine::new().unwrap(), &ctx_devs, &mut b).unwrap();
    let workq = DOCAWorkQueue::new(1, &mut ctx).unwrap();

    assert_eq!(workq.depth(), 1);
}

#[test]
fn test_dma_context() {
    let mut b = backend_one_device();
    let device = devices(&b).unwrap().get(0).unwrap().open(&mut b).unwrap();

    let dma = DMAEngine::new().unwrap();
    let ctx = DOCAContext::new(dma, &vec![device], &mut b).unwrap();
    assert!(ctx.is_started());
}

#[test]
fn context_test_dma_context() {
    let mut b = backend_one_device();
    let device = devices(&b).unwrap().get(0).unwrap().open(&mut b).unwrap();

    let dma = DMAEngine::new().unwrap();
    let ctx = DOCAContext::new(dma, &vec![device], &mut b).unwrap();
    assert!(ctx.is_started());
    assert_eq!(ctx.workq_count(), 0);
}

#[test]
fn test_create_dma_job() {
    let mut b = backend_one_device();
    let device = devices(&b).unwrap().get(0).unwrap().open(&mut b).unwrap();

    let dma = DMAEngine::new().unwrap();

    let mut ctx = DOCAContext::new(dma, &vec![device], &mut b).unwrap();

    let mut workq = DOCAWorkQueue::new(1, &mut ctx).unwrap();

    let mut doca_mmap = DOCAMmap::new().unwrap();
    let mut inv = BufferInventory::new(1024).unwrap();

    let test_len = 64;
    b.alloc_region(0x1000, test_len).unwrap();
    b.alloc_region(0x2000, test_len).unwrap();

    let raw_pointer = RawPointer { inner: 0x1000, payload: test_len };
    let raw_pointer_1 = RawPointer { inner: 0x2000, payload: test_len };

    let registered_memory = DOCARegisteredMemory::new(&mut doca_mmap, raw_pointer, &b).unwrap();
    let src_buf = registered_memory.to_buffer(&mut inv, &mut doca_mmap).unwrap();

    let registered_memory = DOCARegisteredMemory::new(&mut doca_mmap, raw_pointer_1, &b).unwrap();
    let dst_buf = registered_memory.to_buffer(&mut inv, &mut doca_mmap).unwrap();

    let _ = workq.create_dma_job(src_buf, dst_buf);
}

#[test]
fn context_requires_devices() {
    let mut b = backend_one_device();
    let none: Vec<doca::DevContext> = Vec::new();
    match DOCAContext::new(DMAEngine::new().unwrap(), &none, &mut b) {
        Err(e) => assert_eq!(e, DOCAError::InvalidValue),
        Ok(_) => panic!("a context needs at least one device"),
    }
    // A failed construction leaves nothing registered.
    assert!(b.is_quiescent());
}

#[test]
fn queue_depth_zero_is_rejected() {
    let mut b = backend_one_device();
    let device = devices(&b).unwrap().get(0).unwrap().open(&mut b).unwrap();
    let mut ctx = DOCAContext::new(DMAEngine::new().unwrap(), &vec![device], &mut b).unwrap();
    match DOCAWorkQueue::new(0, &mut ctx) {
        Err(e) => assert_eq!(e, DOCAError::InvalidValue),
        Ok(_) => panic!("a queue of depth zero is useless"),
    }
    assert_eq!(ctx.workq_count(), 0);
}

#[test]
fn queue_accepts_up_to_depth_jobs() {
    let mut b = backend_one_device();
    let device = devices(&b).unwrap().get(0).unwrap().open(&mut b).unwrap();
    let mut ctx = DOCAContext::new(DMAEngine::new().unwrap(), &vec![device], &mut b).unwrap();
    let mut workq = DOCAWorkQueue::new(2, &mut ctx).unwrap();

    let mut map = DOCAMmap::new().unwrap();
    let mut inv = BufferInventory::new(16).unwrap();
    b.alloc_region(0x1000, 64).unwrap();
    b.alloc_region(0x2000, 64).unwrap();
    let src = DOCARegisteredMemory::new(&mut map, RawPointer { inner: 0x1000, payload: 64 }, &b)
        .unwrap()
        .to_buffer(&mut inv, &mut map)
        .unwrap();
    let dst = DOCARegisteredMemory::new(&mut map, RawPointer { inner: 0x2000, payload: 64 }, &b)
        .unwrap()
        .to_buffer(&mut inv, &mut map)
        .unwrap();
    let job = workq.create_dma_job(src, dst);

    // Up to `depth` outstanding jobs are accepted without overflow.
    assert!(workq.submit(&job).is_ok());
    assert!(workq.submit(&job).is_ok());
    // One more is refused until something completes.
    assert_eq!(workq.submit(&job), Err(DOCAError::NoMemory));
    assert_eq!(workq.outstanding(), 2);

    // Completing one job frees one slot.
    let ev = workq.poll_completion(&mut b).unwrap();
    assert_eq!(ev.result(), DOCAError::Success);
    assert!(workq.submit(&job).is_ok());
}

#[test]
fn poll_with_nothing_outstanding_says_again() {
    let mut b = backend_one_device();
    let device = devices(&b).unwrap().get(0).unwrap().open(&mut b).unwrap();
    let mut ctx = DOCAContext::new(DMAEngine::new().unwrap(), &vec![device], &mut b).unwrap();
    let mut workq = DOCAWorkQueue::new(1, &mut ctx).unwrap();
    match workq.poll_completion(&mut b) {
        Err(e) => assert_eq!(e, DOCAError::Again),
        Ok(_) => panic!("nothing was submitted"),
    }
}

#[test]
fn duplicate_devices_are_rejected_without_leaks() {
    let mut b = backend_one_device();
    let device = devices(&b).unwrap().get(0).unwrap().open(&mut b).unwrap();
    match DOCAContext::new(DMAEngine::new().unwrap(), &vec![device.clone(), device.clone()], &mut b)
    {
        Err(e) => assert_eq!(e, DOCAError::InvalidValue),
        Ok(_) => panic!("the same device cannot be added twice"),
    }
    // Nothing stayed registered: the handle closes cleanly.
    assert!(device.close(&mut b).is_ok());
    assert!(b.is_quiescent());
}

#[test]
fn stop_requires_detached_queues() {
    let mut b = backend_one_device();
    let device = devices(&b).unwrap().get(0).unwrap().open(&mut b).unwrap();
    let mut ctx = DOCAContext::new(DMAEngine::new().unwrap(), &vec![device], &mut b).unwrap();
    let workq = DOCAWorkQueue::new(1, &mut ctx).unwrap();

    // With a queue attached the context must stay started.
    assert_eq!(ctx.stop(), Err(DOCAError::NotPermitted));
    assert!(ctx.is_started());

    // After detaching, stop and restart both work.
    assert!(workq.destroy(&mut ctx).is_ok());
    assert!(ctx.stop().is_ok());
    assert!(!ctx.is_started());
    assert!(ctx.start().is_ok());
    assert!(ctx.is_started());
}

#[test]
fn test_dev_max_ctx() {
    let ret = DOCAContext::get_max_num_ctx().unwrap();
    assert_ne!(ret, 0);
}

#[test]
fn context_reports_the_first_failing_device() {
    let mut b = backend_one_device();
    let dev = devices(&b).unwrap().get(0).unwrap().open(&mut b).unwrap();
    let stale = dev.clone();
    dev.close(&mut b).unwrap();
    // The device is closed: construction fails with the registration error
    // and registers nothing.
    match DOCAContext::new(DMAEngine::new().unwrap(), &vec![stale], &mut b) {
        Err(e) => assert_eq!(e, DOCAError::NotPermitted),
        Ok(_) => panic!("a closed device cannot back a context"),
    }
    assert!(b.is_quiescent());
}
