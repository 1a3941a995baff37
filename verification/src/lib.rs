//! A verified model of a DMA-offload resource stack: device registry, memory
//! maps, buffer inventories, execution contexts and work queues, together
//! with the asynchronous job-submission / completion protocol that drives a
//! copy engine.
//!
//! The hardware driver itself is out of scope; its observable state (the
//! DMA-visible host memory and the device table) is modelled by
//! [`Backend`], and every operation the driver would perform is specified
//! and proved against that model.  Teardown follows strict
//! reverse-dependency order: a buffer is freed before its inventory and map,
//! a queue is destroyed before its context, a context before its devices,
//! and a map before its devices; the contracts of the `destroy`, `free` and
//! `close` operations enforce the order, and a completed teardown leaves the
//! backend quiescent.

pub mod backend;
pub mod buffer;
pub mod codec;
pub mod config;
pub mod context;
pub mod device;
pub mod dma;
pub mod error;
pub mod memory;
pub mod registered_memory;
pub mod work_queue;

pub use backend::Backend;
pub use buffer::BufferInventory;
pub use buffer::DOCABuffer;
pub use buffer::RawPointerMsg;
pub use config::LoadedInfo;
pub use config::load_config_bytes;
pub use config::parse_buffer_info;
pub use config::render_buffer_info;
pub use context::DOCAContext;
pub use device::DevContext;
pub use device::Device;
pub use device::DeviceList;
pub use device::PciAddress;
pub use device::devices;
pub use device::open_device_with_pci;
pub use dma::DMAEngine;
pub use dma::DOCADMAJob;
pub use error::DOCAError;
pub use error::DOCAResult;
pub use memory::DOCAMmap;
pub use memory::RawPointer;
pub use registered_memory::DOCARegisteredMemory;
pub use work_queue::DOCAEvent;
pub use work_queue::DOCAWorkQueue;
