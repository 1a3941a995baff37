//! A host memory range registered with a memory map, ready to be turned into
//! a buffer descriptor.
//!
//! Using mapped memory is a two-step process: register the range with a map
//! (which populates the map, except on the remote side where the range is
//! already covered by the imported descriptor), then draw a buffer for it
//! from an inventory.

use vstd::prelude::*;

use crate::backend::Backend;
use crate::buffer::BufferInventory;
use crate::buffer::DOCABuffer;
use crate::error::DOCAError;
use crate::error::DOCAResult;
use crate::memory::ChunkRange;
use crate::memory::DOCAMmap;
use crate::memory::RawPointer;
use crate::memory::chunk_contains;
use crate::memory::chunks_have_range;

verus! {

/// A host memory range together with its registration in a memory map.
pub struct DOCARegisteredMemory {
    register_memory: RawPointer,
}

impl DOCARegisteredMemory {
    /// The registered range.
    pub closed spec fn spec_range(self) -> RawPointer {
        self.register_memory
    }

    /// Registers `register_memory` with the map: the map is populated with
    /// the range.  Fails exactly when the population does.
    pub fn new(mmap: &mut DOCAMmap, register_memory: RawPointer, backend: &Backend) -> (r:
        DOCAResult<DOCARegisteredMemory>)
        requires
            old(mmap).wf(),
            backend.wf(),
        ensures
            final(mmap).wf(),
            final(mmap).devices_view() == old(mmap).devices_view(),
            final(mmap).spec_max_chunks() == old(mmap).spec_max_chunks(),
            final(mmap).spec_removal_forbidden() == old(mmap).spec_removal_forbidden(),
            final(mmap).spec_is_remote() == old(mmap).spec_is_remote(),
            final(mmap).spec_outstanding() == old(mmap).spec_outstanding(),
            r is Ok <==> {
                &&& !old(mmap).spec_is_remote()
                &&& old(mmap).chunks_view().len() < old(mmap).spec_max_chunks()
                &&& register_memory.payload > 0
                &&& register_memory.inner + register_memory.payload <= u64::MAX
                &&& crate::backend::mem_has_range(
                    backend.mem(),
                    register_memory.inner as int,
                    register_memory.payload as int,
                )
            },
            r matches Ok(m) ==> m.spec_range() == register_memory && final(mmap).chunks_view()
                == old(mmap).chunks_view().push(
                ChunkRange { addr: register_memory.inner, len: register_memory.payload },
            ),
            r is Err ==> *final(mmap) == *old(mmap),
            old(mmap).spec_is_remote() ==> r == Err::<DOCARegisteredMemory, DOCAError>(
                DOCAError::NotPermitted,
            ),
            !old(mmap).spec_is_remote() && old(mmap).chunks_view().len() >= old(
                mmap,
            ).spec_max_chunks() ==> r == Err::<DOCARegisteredMemory, DOCAError>(
                DOCAError::NoMemory,
            ),
            !old(mmap).spec_is_remote() && old(mmap).chunks_view().len() < old(
                mmap,
            ).spec_max_chunks() && r is Err ==> r == Err::<DOCARegisteredMemory, DOCAError>(
                DOCAError::InvalidValue,
            ),
    {
        match mmap.populate(register_memory, backend) {
            Ok(()) => Ok(DOCARegisteredMemory { register_memory }),
            Err(e) => Err(e),
        }
    }

    /// Wraps a range of the remote side's memory that an imported map already
    /// covers.  Rejected when no registered range of the map covers it.
    pub fn new_from_remote(mmap: &DOCAMmap, register_memory: RawPointer) -> (r: DOCAResult<
        DOCARegisteredMemory,
    >)
        requires
            mmap.wf(),
        ensures
            r is Ok <==> chunks_have_range(
                mmap.chunks_view(),
                register_memory.inner as int,
                register_memory.payload as int,
            ),
            r matches Ok(m) ==> m.spec_range() == register_memory,
            r matches Err(e) ==> e == DOCAError::InvalidValue,
    {
        if mmap.covers(register_memory.inner, register_memory.payload) {
            Ok(DOCARegisteredMemory { register_memory })
        } else {
            Err(DOCAError::InvalidValue)
        }
    }

    /// Draws a buffer descriptor for the registered range from the
    /// inventory.  The buffer's head is the whole range and its active
    /// sub-range starts empty.
    pub fn to_buffer(self, inv: &mut BufferInventory, mmap: &mut DOCAMmap) -> (r: DOCAResult<
        DOCABuffer,
    >)
        requires
            old(mmap).wf(),
        ensures
            final(mmap).wf(),
            final(inv).spec_capacity() == old(inv).spec_capacity(),
            final(mmap).devices_view() == old(mmap).devices_view(),
            final(mmap).chunks_view() == old(mmap).chunks_view(),
            final(mmap).spec_max_chunks() == old(mmap).spec_max_chunks(),
            final(mmap).spec_removal_forbidden() == old(mmap).spec_removal_forbidden(),
            final(mmap).spec_is_remote() == old(mmap).spec_is_remote(),
            r is Ok <==> {
                &&& chunks_have_range(
                    old(mmap).chunks_view(),
                    self.spec_range().inner as int,
                    self.spec_range().payload as int,
                )
                &&& old(inv).spec_allocated() < old(inv).spec_capacity()
                &&& old(mmap).spec_outstanding() < u64::MAX
            },
            r matches Ok(b) ==> {
                &&& b.wf()
                &&& b.spec_head() == self.spec_range()
                &&& b.spec_data_off() == 0
                &&& b.spec_data_len() == 0
                &&& final(inv).spec_allocated() == old(inv).spec_allocated() + 1
                &&& final(mmap).spec_outstanding() == old(mmap).spec_outstanding() + 1
            },
            r is Err ==> *final(inv) == *old(inv) && *final(mmap) == *old(mmap),
    {
        if !mmap.covers(self.register_memory.inner, self.register_memory.payload) {
            return Err(DOCAError::InvalidValue);
        }
        if inv.allocated() >= inv.capacity() {
            return Err(DOCAError::NoMemory);
        }
        if mmap.outstanding_buffers() == u64::MAX {
            return Err(DOCAError::NoMemory);
        }
        proof {
            let cs = mmap.chunks_view();
            let i = choose|i: int|
                0 <= i < cs.len() && chunk_contains(
                    #[trigger] cs[i],
                    self.register_memory.inner as int,
                    self.register_memory.payload as int,
                );
            assert(cs[i].addr + cs[i].len <= u64::MAX);
        }
        match inv.note_alloc() {
            Ok(()) => {},
            Err(e) => {
                proof {
                    assert(false);
                }
                return Err(e);
            },
        }
        match mmap.note_buffer_alloc() {
            Ok(()) => {},
            Err(e) => {
                proof {
                    assert(false);
                }
                return Err(e);
            },
        }
        Ok(DOCABuffer::from_head(self.register_memory))
    }

    /// The registered range.
    pub fn get_register_memory(&self) -> (r: RawPointer)
        ensures
            r == self.spec_range(),
    {
        self.register_memory
    }
}

} // verus!
