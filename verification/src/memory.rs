//! The memory map: a registration pool binding host memory ranges to opened
//! devices, with the export / import handoff between two cooperating sides.
//!
//! A map moves through `Started -> [Populated] -> (optional) Exported`;
//! a map built from an imported descriptor is *remote*.  Device removal is
//! forbidden on an exported or remote map: such a call fails, it never
//! panics, and the teardown of such a map skips deregistration.

use vstd::prelude::*;

use crate::backend::Backend;
use crate::backend::DeviceSlotView;
use crate::backend::mem_has_range;
use crate::backend::spec_unbind_from;
use crate::codec::lemma_u64_le_roundtrip;
use crate::codec::push_u64_le;
use crate::codec::read_u64_le;
use crate::codec::spec_u64_from_le;
use crate::codec::spec_u64_le;
use crate::device::DevContext;
use crate::error::DOCAError;
use crate::error::DOCAResult;

verus! {

/// The default maximum number of registered ranges of a new map.
pub const DOCA_MMAP_CHUNK_SIZE: u32 = 64;

/// The largest number of ranges an export descriptor can carry.
pub const DESC_MAX_CHUNKS: u64 = 127;

/// The largest byte length of an export descriptor.
pub const DOCA_MAX_EXPORT_LENGTH: usize = 2048;

/// A host memory range as plain values: a start address and a byte length.
#[derive(Clone, Copy, Debug, PartialEq, Eq, Structural)]
pub struct RawPointer {
    /// The start address of the range.
    pub inner: u64,
    /// The byte length of the range.
    pub payload: usize,
}

impl RawPointer {
    /// The start address.
    pub fn get_inner(&self) -> (r: u64)
        ensures
            r == self.inner,
    {
        self.inner
    }

    /// The byte length.
    pub fn get_payload(&self) -> (r: usize)
        ensures
            r == self.payload,
    {
        self.payload
    }

    /// A range from a start address and a byte length.
    pub fn from_raw_ptr(addr: u64, len: usize) -> (r: RawPointer)
        ensures
            r == (RawPointer { inner: addr, payload: len }),
    {
        RawPointer { inner: addr, payload: len }
    }
}

/// One registered range of a memory map.
#[derive(Clone, Copy, Debug, PartialEq, Eq, Structural)]
pub struct ChunkRange {
    /// The start address of the range.
    pub addr: u64,
    /// The byte length of the range.
    pub len: usize,
}

/// `true` when the chunk holds the byte range `[addr, addr + len)`.
pub open spec fn chunk_contains(c: ChunkRange, addr: int, len: int) -> bool {
    c.addr <= addr && addr + len <= c.addr + c.len
}

/// `true` when some chunk holds the byte range `[addr, addr + len)`.
pub open spec fn chunks_have_range(cs: Seq<ChunkRange>, addr: int, len: int) -> bool {
    exists|i: int| 0 <= i < cs.len() && chunk_contains(#[trigger] cs[i], addr, len)
}

/// Valid ranges: non-empty and ending within the address space.
pub open spec fn spec_ranges_valid(cs: Seq<ChunkRange>) -> bool {
    forall|i: int|
        0 <= i < cs.len() ==> 0 < (#[trigger] cs[i]).len && cs[i].addr + cs[i].len <= u64::MAX
}

/// The 16 descriptor bytes of one range.
pub open spec fn spec_encode_range(c: ChunkRange) -> Seq<u8> {
    spec_u64_le(c.addr) + spec_u64_le(c.len as u64)
}

/// The descriptor bytes of the ranges from position `k` on.
pub open spec fn spec_encode_from(cs: Seq<ChunkRange>, k: int) -> Seq<u8>
    decreases cs.len() - k,
{
    if k < 0 || k >= cs.len() {
        Seq::empty()
    } else {
        spec_encode_range(cs[k]) + spec_encode_from(cs, k + 1)
    }
}

/// The export descriptor: the number of ranges as a little-endian word,
/// then 16 bytes per range.
pub open spec fn spec_encode_desc(cs: Seq<ChunkRange>) -> Seq<u8> {
    spec_u64_le(cs.len() as u64) + spec_encode_from(cs, 0)
}

/// The address word of entry `i` of a descriptor.
pub open spec fn spec_desc_addr(b: Seq<u8>, i: int) -> u64 {
    spec_u64_from_le(b.subrange(8 + 16 * i, 16 + 16 * i))
}

/// The length word of entry `i` of a descriptor.
pub open spec fn spec_desc_len(b: Seq<u8>, i: int) -> u64 {
    spec_u64_from_le(b.subrange(16 + 16 * i, 24 + 16 * i))
}

/// `true` when entry `i` of a descriptor denotes a valid range.
pub open spec fn spec_desc_entry_valid(b: Seq<u8>, i: int) -> bool {
    &&& 0 < spec_desc_len(b, i)
    &&& spec_desc_len(b, i) <= usize::MAX
    &&& spec_desc_addr(b, i) + spec_desc_len(b, i) <= u64::MAX
}

/// `true` when the first `n` entries all denote valid ranges.
pub open spec fn spec_desc_entries_valid(b: Seq<u8>, n: int) -> bool {
    forall|i: int| 0 <= i < n ==> #[trigger] spec_desc_entry_valid(b, i)
}

/// The ranges a descriptor denotes, or `None` when it is malformed.
pub open spec fn spec_decode_desc(b: Seq<u8>) -> Option<Seq<ChunkRange>> {
    if b.len() < 8 {
        None
    } else {
        let n = spec_u64_from_le(b.subrange(0, 8)) as int;
        if n > DESC_MAX_CHUNKS || b.len() != 8 + 16 * n || !spec_desc_entries_valid(b, n) {
            None
        } else {
            Some(
                Seq::new(
                    n as nat,
                    |i: int|
                        ChunkRange {
                            addr: spec_desc_addr(b, i),
                            len: spec_desc_len(b, i) as usize,
                        },
                ),
            )
        }
    }
}

/// The descriptor bytes from position `k` cover 16 bytes per range.
proof fn lemma_encode_from_len(cs: Seq<ChunkRange>, k: int)
    requires
        0 <= k <= cs.len(),
    ensures
        spec_encode_from(cs, k).len() == 16 * (cs.len() - k),
    decreases cs.len() - k,
{
    if k < cs.len() {
        lemma_encode_from_len(cs, k + 1);
    }
}

/// Entry `i` of the encoding from position `k` holds the words of range `i`.
proof fn lemma_encode_from_slice(cs: Seq<ChunkRange>, k: int, i: int)
    requires
        0 <= k <= i < cs.len(),
    ensures
        spec_encode_from(cs, k).subrange(16 * (i - k), 16 * (i - k) + 8) =~= spec_u64_le(
            cs[i].addr,
        ),
        spec_encode_from(cs, k).subrange(16 * (i - k) + 8, 16 * (i - k) + 16) =~= spec_u64_le(
            cs[i].len as u64,
        ),
    decreases i - k,
{
    lemma_encode_from_len(cs, k);
    lemma_encode_from_len(cs, k + 1);
    if k == i {
        assert(spec_encode_from(cs, k).subrange(0, 8) =~= spec_u64_le(cs[k].addr));
        assert(spec_encode_from(cs, k).subrange(8, 16) =~= spec_u64_le(cs[k].len as u64));
    } else {
        lemma_encode_from_slice(cs, k + 1, i);
        assert(spec_encode_from(cs, k).subrange(16 * (i - k), 16 * (i - k) + 8) =~= spec_encode_from(
            cs,
            k + 1,
        ).subrange(16 * (i - k - 1), 16 * (i - k - 1) + 8));
        assert(spec_encode_from(cs, k).subrange(16 * (i - k) + 8, 16 * (i - k) + 16)
            =~= spec_encode_from(cs, k + 1).subrange(16 * (i - k - 1) + 8, 16 * (i - k - 1) + 16));
    }
}

/// Encoding valid ranges and decoding the bytes yields the ranges.
pub proof fn lemma_desc_roundtrip(cs: Seq<ChunkRange>)
    requires
        cs.len() <= DESC_MAX_CHUNKS,
        spec_ranges_valid(cs),
    ensures
        spec_decode_desc(spec_encode_desc(cs)) == Some(cs),
{
    let b = spec_encode_desc(cs);
    let n = cs.len() as int;
    lemma_encode_from_len(cs, 0);
    assert(b.len() == 8 + 16 * n);
    assert(b.subrange(0, 8) =~= spec_u64_le(cs.len() as u64));
    lemma_u64_le_roundtrip(cs.len() as u64);
    assert(spec_u64_from_le(b.subrange(0, 8)) as int == n);
    assert forall|i: int| 0 <= i < n implies #[trigger] spec_desc_entry_valid(b, i) && spec_desc_addr(
        b,
        i,
    ) == cs[i].addr && spec_desc_len(b, i) == cs[i].len as u64 by {
        lemma_encode_from_slice(cs, 0, i);
        assert(b.subrange(8 + 16 * i, 16 + 16 * i) =~= spec_encode_from(cs, 0).subrange(
            16 * i,
            16 * i + 8,
        ));
        assert(b.subrange(16 + 16 * i, 24 + 16 * i) =~= spec_encode_from(cs, 0).subrange(
            16 * i + 8,
            16 * i + 16,
        ));
        lemma_u64_le_roundtrip(cs[i].addr);
        lemma_u64_le_roundtrip(cs[i].len as u64);
    }
    let decoded = spec_decode_desc(b)->0;
    assert forall|i: int| 0 <= i < n implies decoded[i] == cs[i] by {
        assert(spec_desc_entry_valid(b, i));
        assert(spec_desc_addr(b, i) == cs[i].addr);
        assert(spec_desc_len(b, i) == cs[i].len as u64);
    }
    assert(decoded =~= cs);
}

/// One registered range with the granularity it was registered at.
struct MmapChunk {
    range: ChunkRange,
    granularity: usize,
}

/// Relies on `page_size::get`: the operating system's memory page size, the
/// registration granularity of populated ranges.  Nothing is assumed of the
/// returned value.
#[verifier::external_body]
fn os_page_size() -> usize {
    page_size::get()
}

/// A memory map: an ordered collection of registered devices and registered
/// host memory ranges.
pub struct DOCAMmap {
    devices: Vec<usize>,
    chunks: Vec<MmapChunk>,
    max_chunks: u32,
    removal_forbidden: bool,
    remote: bool,
    outstanding: u64,
}

impl DOCAMmap {
    /// The device table indices registered into this map, in registration
    /// order.
    pub closed spec fn devices_view(self) -> Seq<usize> {
        Seq::new(self.devices@.len(), |i: int| self.devices@[i])
    }

    /// The registered ranges, in registration order.
    pub closed spec fn chunks_view(self) -> Seq<ChunkRange> {
        Seq::new(self.chunks@.len(), |i: int| self.chunks@[i].range)
    }

    /// The most ranges this map accepts.
    pub closed spec fn spec_max_chunks(self) -> u32 {
        self.max_chunks
    }

    /// `true` once device removal is forbidden: after an export, and always
    /// on a remote map.
    pub closed spec fn spec_removal_forbidden(self) -> bool {
        self.removal_forbidden
    }

    /// `true` for a map built from an imported descriptor.
    pub closed spec fn spec_is_remote(self) -> bool {
        self.remote
    }

    /// The number of buffers drawn against this map and not yet freed.
    pub closed spec fn spec_outstanding(self) -> u64 {
        self.outstanding
    }

    /// Well-formedness: no device is registered twice, and every range is
    /// valid.
    pub open spec fn wf(self) -> bool {
        &&& forall|i: int, j: int|
            0 <= i < self.devices_view().len() && 0 <= j < self.devices_view().len() && i != j
                ==> self.devices_view()[i] != self.devices_view()[j]
        &&& spec_ranges_valid(self.chunks_view())
    }

    /// A fresh local map with the default chunk limit, already started.
    pub fn new() -> (r: DOCAResult<DOCAMmap>)
        ensures
            r is Ok,
            r matches Ok(m) ==> {
                &&& m.wf()
                &&& m.devices_view().len() == 0
                &&& m.chunks_view().len() == 0
                &&& m.spec_max_chunks() == DOCA_MMAP_CHUNK_SIZE
                &&& !m.spec_removal_forbidden()
                &&& !m.spec_is_remote()
                &&& m.spec_outstanding() == 0
            },
    {
        Self::new_with_arg(DOCA_MMAP_CHUNK_SIZE)
    }

    /// A fresh local map that accepts at most `max_chunks` ranges.
    pub fn new_with_arg(max_chunks: u32) -> (r: DOCAResult<DOCAMmap>)
        ensures
            r is Ok,
            r matches Ok(m) ==> {
                &&& m.wf()
                &&& m.devices_view().len() == 0
                &&& m.chunks_view().len() == 0
                &&& m.spec_max_chunks() == max_chunks
                &&& !m.spec_removal_forbidden()
                &&& !m.spec_is_remote()
                &&& m.spec_outstanding() == 0
            },
    {
        Ok(
            DOCAMmap {
                devices: Vec::new(),
                chunks: Vec::new(),
                max_chunks,
                removal_forbidden: false,
                remote: false,
                outstanding: 0,
            },
        )
    }

    /// Registers a device for address translation and returns its stable
    /// registration index.  Rejected on an exported or remote map, and when
    /// the device is already registered or has no open handle.
    pub fn add_device(&mut self, dev: &DevContext, backend: &mut Backend) -> (r: DOCAResult<usize>)
        requires
            old(self).wf(),
            old(backend).wf(),
        ensures
            final(self).wf(),
            final(backend).wf(),
            final(backend).mem() == old(backend).mem(),
            final(self).chunks_view() == old(self).chunks_view(),
            final(self).spec_max_chunks() == old(self).spec_max_chunks(),
            final(self).spec_removal_forbidden() == old(self).spec_removal_forbidden(),
            final(self).spec_is_remote() == old(self).spec_is_remote(),
            final(self).spec_outstanding() == old(self).spec_outstanding(),
            r is Ok <==> {
                &&& !old(self).spec_removal_forbidden()
                &&& !old(self).devices_view().contains(dev.spec_index() as usize)
                &&& dev.spec_index() < old(backend).devs().len()
                &&& old(backend).devs()[dev.spec_index()].open >= 1
                &&& old(backend).devs()[dev.spec_index()].bound < u64::MAX
            },
            r matches Ok(idx) ==> {
                &&& idx == old(self).devices_view().len()
                &&& final(self).devices_view() == old(self).devices_view().push(
                    dev.spec_index() as usize,
                )
                &&& final(backend).devs() == old(backend).devs().update(
                    dev.spec_index(),
                    DeviceSlotView {
                        bound: (old(backend).devs()[dev.spec_index()].bound + 1) as u64,
                        ..old(backend).devs()[dev.spec_index()]
                    },
                )
            },
            r is Err ==> *final(self) == *old(self) && final(backend).devs() == old(backend).devs(),
            old(self).spec_removal_forbidden() ==> r == Err::<usize, DOCAError>(
                DOCAError::NotPermitted,
            ),
            !old(self).spec_removal_forbidden() && old(self).devices_view().contains(
                dev.spec_index() as usize,
            ) ==> r == Err::<usize, DOCAError>(DOCAError::InvalidValue),
            !old(self).spec_removal_forbidden() && !old(self).devices_view().contains(
                dev.spec_index() as usize,
            ) && dev.spec_index() >= old(backend).devs().len() ==> r == Err::<usize, DOCAError>(
                DOCAError::InvalidValue,
            ),
            !old(self).spec_removal_forbidden() && !old(self).devices_view().contains(
                dev.spec_index() as usize,
            ) && dev.spec_index() < old(backend).devs().len() && old(backend).devs()[
                dev.spec_index()
            ].open == 0 ==> r == Err::<usize, DOCAError>(DOCAError::NotPermitted),
            !old(self).spec_removal_forbidden() && !old(self).devices_view().contains(
                dev.spec_index() as usize,
            ) && dev.spec_index() < old(backend).devs().len() && old(backend).devs()[
                dev.spec_index()
            ].open >= 1 && old(backend).devs()[dev.spec_index()].bound == u64::MAX ==> r == Err::<
                usize,
                DOCAError,
            >(DOCAError::NoMemory),
    {
        if self.removal_forbidden {
            return Err(DOCAError::NotPermitted);
        }
        let didx = dev.index();
        let n = self.devices.len();
        let mut i: usize = 0;
        while i < n
            invariant
                self == old(self),
                backend == old(backend),
                self.wf(),
                backend.wf(),
                !self.spec_removal_forbidden(),
                n == self.devices@.len(),
                i <= n,
                didx as int == dev.spec_index(),
                forall|j: int| 0 <= j < i ==> self.devices_view()[j] != didx,
            decreases n - i,
        {
            if self.devices[i] == didx {
                proof {
                    assert(self.devices_view()[i as int] == didx);
                    assert(self.devices_view().contains(didx));
                }
                return Err(DOCAError::InvalidValue);
            }
            i = i + 1;
        }
        proof {
            if old(self).devices_view().contains(didx) {
                let w = choose|w: int|
                    0 <= w < old(self).devices_view().len() && old(self).devices_view()[w] == didx;
                assert(false);
            }
        }
        match backend.bind_slot(didx) {
            Ok(()) => {
                let idx = self.devices.len();
                self.devices.push(didx);
                proof {
                    assert(self.devices_view() =~= old(self).devices_view().push(didx));
                    assert(self.chunks_view() =~= old(self).chunks_view());
                    let ov = old(self).devices_view();
                    let nv = self.devices_view();
                    assert forall|p: int, q: int|
                        0 <= p < nv.len() && 0 <= q < nv.len() && p != q implies nv[p]
                        != nv[q] by {
                        if p < ov.len() && q < ov.len() {
                        } else if p == ov.len() {
                            assert(ov[q] != didx);
                        } else {
                            assert(ov[p] != didx);
                        }
                    }
                }
                Ok(idx)
            },
            Err(e) => Err(e),
        }
    }

    /// Deregisters the device at registration index `dev_idx`.  On an
    /// exported or remote map this fails with `NotPermitted` — it never
    /// succeeds and never panics.  Later registration indices shift down by
    /// one.
    pub fn rm_device(&mut self, dev_idx: usize, backend: &mut Backend) -> (r: DOCAResult<()>)
        requires
            old(self).wf(),
            old(backend).wf(),
        ensures
            final(self).wf(),
            final(backend).wf(),
            final(backend).mem() == old(backend).mem(),
            final(self).chunks_view() == old(self).chunks_view(),
            final(self).spec_max_chunks() == old(self).spec_max_chunks(),
            final(self).spec_removal_forbidden() == old(self).spec_removal_forbidden(),
            final(self).spec_is_remote() == old(self).spec_is_remote(),
            final(self).spec_outstanding() == old(self).spec_outstanding(),
            old(self).spec_removal_forbidden() ==> r == Err::<(), DOCAError>(
                DOCAError::NotPermitted,
            ),
            r is Ok <==> {
                &&& !old(self).spec_removal_forbidden()
                &&& dev_idx < old(self).devices_view().len()
                &&& old(self).devices_view()[dev_idx as int] < old(backend).devs().len()
                &&& old(backend).devs()[old(self).devices_view()[dev_idx as int] as int].bound
                    >= 1
            },
            r is Ok ==> {
                &&& final(self).devices_view() == old(self).devices_view().remove(dev_idx as int)
                &&& final(backend).devs() == old(backend).devs().update(
                    old(self).devices_view()[dev_idx as int] as int,
                    DeviceSlotView {
                        bound: (old(backend).devs()[old(self).devices_view()[
                            dev_idx as int
                        ] as int].bound - 1) as u64,
                        ..old(backend).devs()[old(self).devices_view()[dev_idx as int] as int]
                    },
                )
            },
            r is Err ==> *final(self) == *old(self) && final(backend).devs() == old(backend).devs(),
            !old(self).spec_removal_forbidden() && dev_idx >= old(self).devices_view().len() ==> r
                == Err::<(), DOCAError>(DOCAError::InvalidValue),
            !old(self).spec_removal_forbidden() && dev_idx < old(self).devices_view().len() && old(
                self,
            ).devices_view()[dev_idx as int] >= old(backend).devs().len() ==> r == Err::<
                (),
                DOCAError,
            >(DOCAError::InvalidValue),
            !old(self).spec_removal_forbidden() && dev_idx < old(self).devices_view().len() && old(
                self,
            ).devices_view()[dev_idx as int] < old(backend).devs().len() && old(backend).devs()[
                old(self).devices_view()[dev_idx as int] as int
            ].bound == 0 ==> r == Err::<(), DOCAError>(DOCAError::NotPermitted),
    {
        if self.removal_forbidden {
            return Err(DOCAError::NotPermitted);
        }
        if dev_idx >= self.devices.len() {
            return Err(DOCAError::InvalidValue);
        }
        let didx = self.devices[dev_idx];
        match backend.unbind_slot(didx) {
            Ok(()) => {
                self.devices.remove(dev_idx);
                proof {
                    assert(self.devices_view() =~= old(self).devices_view().remove(
                        dev_idx as int,
                    ));
                    assert(self.chunks_view() =~= old(self).chunks_view());
                    let ov = old(self).devices_view();
                    let nv = self.devices_view();
                    assert forall|p: int, q: int|
                        0 <= p < nv.len() && 0 <= q < nv.len() && p != q implies nv[p] != nv[q] by {
                        let p0 = if p < dev_idx as int {
                            p
                        } else {
                            p + 1
                        };
                        let q0 = if q < dev_idx as int {
                            q
                        } else {
                            q + 1
                        };
                        assert(nv[p] == ov[p0] && nv[q] == ov[q0]);
                    }
                }
                Ok(())
            },
            Err(e) => Err(e),
        }
    }

    /// Registers the host memory range `mr` with the map, at the system page
    /// size as granularity.  Rejected on a remote map, above the chunk limit,
    /// for an empty or overflowing range, and for a range that no allocated
    /// backend region covers.
    pub fn populate(&mut self, mr: RawPointer, backend: &Backend) -> (r: DOCAResult<()>)
        requires
            old(self).wf(),
            backend.wf(),
        ensures
            final(self).wf(),
            final(self).devices_view() == old(self).devices_view(),
            final(self).spec_max_chunks() == old(self).spec_max_chunks(),
            final(self).spec_removal_forbidden() == old(self).spec_removal_forbidden(),
            final(self).spec_is_remote() == old(self).spec_is_remote(),
            final(self).spec_outstanding() == old(self).spec_outstanding(),
            r is Ok <==> {
                &&& !old(self).spec_is_remote()
                &&& old(self).chunks_view().len() < old(self).spec_max_chunks()
                &&& mr.payload > 0
                &&& mr.inner + mr.payload <= u64::MAX
                &&& mem_has_range(backend.mem(), mr.inner as int, mr.payload as int)
            },
            r is Ok ==> final(self).chunks_view() == old(self).chunks_view().push(
                ChunkRange { addr: mr.inner, len: mr.payload },
            ),
            r is Err ==> *final(self) == *old(self),
            old(self).spec_is_remote() ==> r == Err::<(), DOCAError>(DOCAError::NotPermitted),
            !old(self).spec_is_remote() && old(self).chunks_view().len() >= old(
                self,
            ).spec_max_chunks() ==> r == Err::<(), DOCAError>(DOCAError::NoMemory),
            !old(self).spec_is_remote() && old(self).chunks_view().len() < old(
                self,
            ).spec_max_chunks() && r is Err ==> r == Err::<(), DOCAError>(DOCAError::InvalidValue),
    {
        if self.remote {
            return Err(DOCAError::NotPermitted);
        }
        if self.chunks.len() >= self.max_chunks as usize {
            return Err(DOCAError::NoMemory);
        }
        if mr.payload == 0 || mr.inner > u64::MAX - (mr.payload as u64) {
            return Err(DOCAError::InvalidValue);
        }
        if !backend.covers(mr.inner, mr.payload) {
            return Err(DOCAError::InvalidValue);
        }
        let granularity = os_page_size();
        self.chunks.push(
            MmapChunk { range: ChunkRange { addr: mr.inner, len: mr.payload }, granularity },
        );
        proof {
            assert(self.chunks_view() =~= old(self).chunks_view().push(
                ChunkRange { addr: mr.inner, len: mr.payload },
            ));
            assert(self.devices_view() =~= old(self).devices_view());
        }
        Ok(())
    }

    /// `true` when one registered range holds `[addr, addr + len)`.
    pub fn covers(&self, addr: u64, len: usize) -> (r: bool)
        requires
            self.wf(),
        ensures
            r == chunks_have_range(self.chunks_view(), addr as int, len as int),
    {
        let n = self.chunks.len();
        let mut i: usize = 0;
        while i < n
            invariant
                self.wf(),
                n == self.chunks@.len(),
                i <= n,
                forall|j: int|
                    0 <= j < i ==> !chunk_contains(
                        #[trigger] self.chunks_view()[j],
                        addr as int,
                        len as int,
                    ),
            decreases n - i,
        {
            let c = self.chunks[i].range;
            proof {
                assert(self.chunks_view()[i as int] == c);
                assert(spec_ranges_valid(self.chunks_view()));
                assert(0 < self.chunks_view()[i as int].len && self.chunks_view()[i as int].addr
                    + self.chunks_view()[i as int].len <= u64::MAX);
            }
            if c.addr <= addr {
                let off: u64 = addr - c.addr;
                if off <= c.len as u64 && (len as u64) <= (c.len as u64) - off {
                    proof {
                        assert(chunk_contains(self.chunks_view()[i as int], addr as int, len as int));
                    }
                    return true;
                }
            }
            i = i + 1;
        }
        false
    }

    /// Exports the map's metadata for the device at registration index
    /// `dev_index` as an opaque byte descriptor.  After a successful export
    /// the map permanently rejects device removal.
    pub fn export(&mut self, dev_index: usize) -> (r: DOCAResult<Vec<u8>>)
        requires
            old(self).wf(),
        ensures
            final(self).wf(),
            final(self).devices_view() == old(self).devices_view(),
            final(self).chunks_view() == old(self).chunks_view(),
            final(self).spec_max_chunks() == old(self).spec_max_chunks(),
            final(self).spec_is_remote() == old(self).spec_is_remote(),
            final(self).spec_outstanding() == old(self).spec_outstanding(),
            r is Ok <==> {
                &&& !old(self).spec_is_remote()
                &&& dev_index < old(self).devices_view().len()
                &&& old(self).chunks_view().len() <= DESC_MAX_CHUNKS
            },
            r matches Ok(v) ==> {
                &&& final(self).spec_removal_forbidden()
                &&& v@ == spec_encode_desc(old(self).chunks_view())
                &&& v@.len() <= DOCA_MAX_EXPORT_LENGTH
                &&& spec_decode_desc(v@) == Some(old(self).chunks_view())
            },
            r is Err ==> *final(self) == *old(self),
            old(self).spec_is_remote() ==> r == Err::<Vec<u8>, DOCAError>(DOCAError::NotPermitted),
            !old(self).spec_is_remote() && dev_index >= old(self).devices_view().len() ==> r
                == Err::<Vec<u8>, DOCAError>(DOCAError::InvalidValue),
            !old(self).spec_is_remote() && dev_index < old(self).devices_view().len() && old(
                self,
            ).chunks_view().len() > DESC_MAX_CHUNKS ==> r == Err::<Vec<u8>, DOCAError>(
                DOCAError::NoMemory,
            ),
    {
        if self.remote {
            return Err(DOCAError::NotPermitted);
        }
        if dev_index >= self.devices.len() {
            return Err(DOCAError::InvalidValue);
        }
        if self.chunks.len() > DESC_MAX_CHUNKS as usize {
            return Err(DOCAError::NoMemory);
        }
        let cv = Ghost(self.chunks_view());
        let n = self.chunks.len();
        let mut out: Vec<u8> = Vec::new();
        push_u64_le(&mut out, n as u64);
        proof {
            assert(out@ + spec_encode_from(cv@, 0) =~= spec_encode_desc(cv@));
        }
        let mut i: usize = 0;
        while i < n
            invariant
                self == old(self),
                n == self.chunks@.len(),
                i <= n,
                cv@ == self.chunks_view(),
                out@ + spec_encode_from(cv@, i as int) == spec_encode_desc(cv@),
            decreases n - i,
        {
            let c = self.chunks[i].range;
            proof {
                assert(self.chunks_view()[i as int] == c);
            }
            push_u64_le(&mut out, c.addr);
            push_u64_le(&mut out, c.len as u64);
            proof {
                assert(spec_encode_from(cv@, i as int) == spec_encode_range(cv@[i as int])
                    + spec_encode_from(cv@, i + 1));
                assert(out@ + spec_encode_from(cv@, i + 1) =~= spec_encode_desc(cv@));
            }
            i = i + 1;
        }
        proof {
            assert(spec_encode_from(cv@, n as int) =~= Seq::<u8>::empty());
            assert(out@ + spec_encode_from(cv@, n as int) =~= out@);
            assert(out@ =~= spec_encode_desc(cv@));
            lemma_encode_from_len(cv@, 0);
            lemma_desc_roundtrip(cv@);
        }
        self.removal_forbidden = true;
        proof {
            assert(self.devices_view() =~= old(self).devices_view());
            assert(self.chunks_view() =~= old(self).chunks_view());
        }
        Ok(out)
    }

    /// Builds a remote map from an imported descriptor, bound to one opened
    /// device.  The map is never device-mutable.
    pub fn new_from_export(desc: &Vec<u8>, dev: &DevContext, backend: &mut Backend) -> (r:
        DOCAResult<DOCAMmap>)
        requires
            old(backend).wf(),
        ensures
            final(backend).wf(),
            final(backend).mem() == old(backend).mem(),
            spec_decode_desc(desc@) is None ==> r == Err::<DOCAMmap, DOCAError>(
                DOCAError::InvalidValue,
            ),
            r is Ok <==> {
                &&& spec_decode_desc(desc@) is Some
                &&& dev.spec_index() < old(backend).devs().len()
                &&& old(backend).devs()[dev.spec_index()].open >= 1
                &&& old(backend).devs()[dev.spec_index()].bound < u64::MAX
            },
            r matches Ok(m) ==> {
                &&& m.wf()
                &&& m.spec_is_remote()
                &&& m.spec_removal_forbidden()
                &&& m.spec_outstanding() == 0
                &&& m.chunks_view() == spec_decode_desc(desc@)->0
                &&& m.devices_view() == seq![dev.spec_index() as usize]
                &&& final(backend).devs() == old(backend).devs().update(
                    dev.spec_index(),
                    DeviceSlotView {
                        bound: (old(backend).devs()[dev.spec_index()].bound + 1) as u64,
                        ..old(backend).devs()[dev.spec_index()]
                    },
                )
            },
            r is Err ==> final(backend).devs() == old(backend).devs(),
            r matches Err(e) ==> e == DOCAError::InvalidValue || e == DOCAError::NotPermitted || e
                == DOCAError::NoMemory,
            spec_decode_desc(desc@) is Some && dev.spec_index() >= old(backend).devs().len() ==> r
                == Err::<DOCAMmap, DOCAError>(DOCAError::InvalidValue),
            spec_decode_desc(desc@) is Some && dev.spec_index() < old(backend).devs().len() && old(
                backend,
            ).devs()[dev.spec_index()].open == 0 ==> r == Err::<DOCAMmap, DOCAError>(
                DOCAError::NotPermitted,
            ),
            spec_decode_desc(desc@) is Some && dev.spec_index() < old(backend).devs().len() && old(
                backend,
            ).devs()[dev.spec_index()].open >= 1 && old(backend).devs()[dev.spec_index()].bound
                == u64::MAX ==> r == Err::<DOCAMmap, DOCAError>(DOCAError::NoMemory),
    {
        let ranges = match decode_desc(desc) {
            None => {
                return Err(DOCAError::InvalidValue);
            },
            Some(v) => v,
        };
        let didx = dev.index();
        match backend.bind_slot(didx) {
            Ok(()) => {
                let mut chunks: Vec<MmapChunk> = Vec::new();
                let n = ranges.len();
                let mut i: usize = 0;
                while i < n
                    invariant
                        n == ranges@.len(),
                        i <= n,
                        chunks@.len() == i,
                        forall|j: int| 0 <= j < i ==> (#[trigger] chunks@[j]).range == ranges@[j],
                    decreases n - i,
                {
                    chunks.push(MmapChunk { range: ranges[i], granularity: 0 });
                    i = i + 1;
                }
                let mut devices: Vec<usize> = Vec::new();
                devices.push(didx);
                let m = DOCAMmap {
                    devices,
                    chunks,
                    max_chunks: if n > u32::MAX as usize {
                        u32::MAX
                    } else {
                        n as u32
                    },
                    removal_forbidden: true,
                    remote: true,
                    outstanding: 0,
                };
                proof {
                    assert(m.chunks_view() =~= spec_decode_desc(desc@)->0);
                    assert(m.devices_view() =~= seq![didx]);
                    assert(spec_ranges_valid(m.chunks_view()));
                }
                Ok(m)
            },
            Err(e) => Err(e),
        }
    }

    /// Notes one more buffer drawn against this map.
    pub(crate) fn note_buffer_alloc(&mut self) -> (r: DOCAResult<()>)
        ensures
            r is Ok <==> old(self).spec_outstanding() < u64::MAX,
            r is Ok ==> final(self).spec_outstanding() == old(self).spec_outstanding() + 1,
            r is Err ==> *final(self) == *old(self) && r == Err::<(), DOCAError>(DOCAError::NoMemory),
            final(self).devices_view() == old(self).devices_view(),
            final(self).chunks_view() == old(self).chunks_view(),
            final(self).spec_max_chunks() == old(self).spec_max_chunks(),
            final(self).spec_removal_forbidden() == old(self).spec_removal_forbidden(),
            final(self).spec_is_remote() == old(self).spec_is_remote(),
            old(self).wf() ==> final(self).wf(),
    {
        if self.outstanding == u64::MAX {
            return Err(DOCAError::NoMemory);
        }
        self.outstanding = self.outstanding + 1;
        proof {
            assert(self.devices_view() =~= old(self).devices_view());
            assert(self.chunks_view() =~= old(self).chunks_view());
        }
        Ok(())
    }

    /// Notes one buffer drawn against this map freed.
    pub(crate) fn note_buffer_free(&mut self) -> (r: DOCAResult<()>)
        ensures
            r is Ok <==> old(self).spec_outstanding() >= 1,
            r is Ok ==> final(self).spec_outstanding() == old(self).spec_outstanding() - 1,
            r is Err ==> *final(self) == *old(self) && r == Err::<(), DOCAError>(
                DOCAError::NotPermitted,
            ),
            final(self).devices_view() == old(self).devices_view(),
            final(self).chunks_view() == old(self).chunks_view(),
            final(self).spec_max_chunks() == old(self).spec_max_chunks(),
            final(self).spec_removal_forbidden() == old(self).spec_removal_forbidden(),
            final(self).spec_is_remote() == old(self).spec_is_remote(),
            old(self).wf() ==> final(self).wf(),
    {
        if self.outstanding == 0 {
            return Err(DOCAError::NotPermitted);
        }
        self.outstanding = self.outstanding - 1;
        proof {
            assert(self.devices_view() =~= old(self).devices_view());
            assert(self.chunks_view() =~= old(self).chunks_view());
        }
        Ok(())
    }

    /// The number of buffers drawn against this map and not yet freed.
    pub fn outstanding_buffers(&self) -> (r: u64)
        ensures
            r == self.spec_outstanding(),
    {
        self.outstanding
    }

    /// Releases the map.  Every registered device's hold is released: while
    /// removal is legal this is the explicit deregistration; on an exported
    /// or remote map the deregistration path is skipped and the holds go
    /// with the release itself, so no registration outlives the map either
    /// way.  Rejected while buffers drawn against the map are still alive.
    pub fn destroy(self, backend: &mut Backend) -> (r: DOCAResult<()>)
        requires
            self.wf(),
            old(backend).wf(),
        ensures
            final(backend).wf(),
            final(backend).mem() == old(backend).mem(),
            r is Ok <==> self.spec_outstanding() == 0 && (forall|i: int|
                0 <= i < self.devices_view().len() ==> (#[trigger] self.devices_view()[i])
                    < old(backend).devs().len() && old(backend).devs()[
                    self.devices_view()[i] as int
                ].bound >= 1),
            r is Ok ==> final(backend).devs() == spec_unbind_from(
                old(backend).devs(),
                self.devices_view(),
                0,
            ),
            r is Err ==> final(backend).devs() == old(backend).devs(),
            r matches Err(e) ==> e == DOCAError::NotPermitted || e == DOCAError::InvalidValue,
    {
        if self.outstanding > 0 {
            return Err(DOCAError::NotPermitted);
        }
        let n = self.devices.len();
        let mut i: usize = 0;
        while i < n
            invariant
                backend == old(backend),
                backend.wf(),
                self.wf(),
                self.spec_outstanding() == 0,
                n == self.devices@.len(),
                i <= n,
                forall|j: int|
                    0 <= j < i ==> (#[trigger] self.devices_view()[j]) < backend.devs().len()
                        && backend.devs()[self.devices_view()[j] as int].bound >= 1,
            decreases n - i,
        {
            let didx = self.devices[i];
            proof {
                assert(self.devices_view()[i as int] == didx);
            }
            if didx >= backend.device_count() {
                proof {
                    assert(!((#[trigger] self.devices_view()[i as int]) < backend.devs().len()
                        && backend.devs()[self.devices_view()[i as int] as int].bound >= 1));
                }
                return Err(DOCAError::InvalidValue);
            }
            if backend.device_bound(didx) == 0 {
                proof {
                    assert(!((#[trigger] self.devices_view()[i as int]) < backend.devs().len()
                        && backend.devs()[self.devices_view()[i as int] as int].bound >= 1));
                }
                return Err(DOCAError::NotPermitted);
            }
            i = i + 1;
        }
        let ghost odevs = backend.devs();
        let ghost dv = self.devices_view();
        let mut k: usize = 0;
        while k < n
            invariant
                self.wf(),
                self.spec_outstanding() == 0,
                backend.wf(),
                backend.mem() == old(backend).mem(),
                n == self.devices@.len(),
                k <= n,
                dv == self.devices_view(),
                odevs == old(backend).devs(),
                backend.devs().len() == odevs.len(),
                forall|j: int|
                    0 <= j < n ==> (#[trigger] dv[j]) < odevs.len() && odevs[dv[j] as int].bound
                        >= 1,
                forall|j: int|
                    k <= j < n ==> (#[trigger] dv[j]) < backend.devs().len() && backend.devs()[
                        dv[j] as int
                    ].bound >= 1,
                spec_unbind_from(odevs, dv, 0) == spec_unbind_from(backend.devs(), dv, k as int),
            decreases n - k,
        {
            let didx = self.devices[k];
            proof {
                assert(dv[k as int] == didx);
            }
            match backend.unbind_slot(didx) {
                Ok(()) => {
                    proof {
                        assert forall|j: int|
                            k + 1 <= j < n implies (#[trigger] dv[j]) < backend.devs().len()
                            && backend.devs()[dv[j] as int].bound >= 1 by {
                            assert(dv[j] != dv[k as int]);
                        }
                    }
                },
                Err(e) => {
                    proof {
                        assert(false);
                    }
                    return Err(e);
                },
            }
            k = k + 1;
        }
        proof {
            assert(spec_unbind_from(backend.devs(), dv, n as int) == backend.devs());
        }
        Ok(())
    }
}

/// Reads an export descriptor.  `None` exactly when the bytes are malformed.
fn decode_desc(b: &Vec<u8>) -> (r: Option<Vec<ChunkRange>>)
    ensures
        r is Some <==> spec_decode_desc(b@) is Some,
        r matches Some(v) ==> Some(v@) == spec_decode_desc(b@) && spec_ranges_valid(v@) && v@.len()
            <= DESC_MAX_CHUNKS,
{
    if b.len() < 8 {
        return None;
    }
    let n64 = read_u64_le(b, 0);
    if n64 > DESC_MAX_CHUNKS {
        return None;
    }
    let n = n64 as usize;
    let expected: u64 = 8 + 16 * n64;
    if (b.len() as u64) != expected {
        return None;
    }
    let mut out: Vec<ChunkRange> = Vec::new();
    let mut i: usize = 0;
    while i < n
        invariant
            b@.len() >= 8,
            n == spec_u64_from_le(b@.subrange(0, 8)),
            n <= DESC_MAX_CHUNKS,
            b@.len() == 8 + 16 * n,
            i <= n,
            out@.len() == i,
            spec_desc_entries_valid(b@, i as int),
            forall|j: int|
                0 <= j < i ==> #[trigger] out@[j] == (ChunkRange {
                    addr: spec_desc_addr(b@, j),
                    len: spec_desc_len(b@, j) as usize,
                }),
        decreases n - i,
    {
        let addr = read_u64_le(b, 8 + 16 * i);
        let lv = read_u64_le(b, 16 + 16 * i);
        proof {
            assert(addr == spec_desc_addr(b@, i as int));
            assert(lv == spec_desc_len(b@, i as int));
        }
        if lv == 0 || lv > usize::MAX as u64 || addr > u64::MAX - lv {
            proof {
                assert(!spec_desc_entry_valid(b@, i as int));
            }
            return None;
        }
        out.push(ChunkRange { addr, len: lv as usize });
        proof {
            assert(spec_desc_entry_valid(b@, i as int));
            assert forall|j: int| 0 <= j < i + 1 implies #[trigger] spec_desc_entry_valid(
                b@,
                j,
            ) by {}
        }
        i = i + 1;
    }
    proof {
        let cs = spec_decode_desc(b@)->0;
        assert(out@ =~= cs);
        assert forall|j: int| 0 <= j < out@.len() implies 0 < (#[trigger] out@[j]).len && out@[
            j
        ].addr + out@[j].len <= u64::MAX by {
            assert(spec_desc_entry_valid(b@, j));
        }
    }
    Some(out)
}

} // verus!
