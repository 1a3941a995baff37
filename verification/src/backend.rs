//! The model of the offload backend: the state that the engine driver holds
//! on behalf of this library.
//!
//! A [`Backend`] value stands for one DMA fabric: every byte of host memory
//! that the copy engine can reach, and the table of offload-capable devices,
//! with a count of the open handles and of the map/context registrations of
//! each device.  All operations that the driver would perform are modelled
//! here as verified functions over this state; the rest of the crate is
//! specified against the views [`Backend::mem`] and [`Backend::devs`].

use vstd::prelude::*;

use crate::device::PciAddress;
use crate::error::DOCAError;
use crate::error::DOCAResult;

verus! {

/// One allocated region of DMA-visible host memory.
pub struct HostRegion {
    base: u64,
    data: Vec<u8>,
}

/// Ghost image of a [`HostRegion`]: its base address and its bytes.
pub struct HostRegionView {
    pub base: u64,
    pub data: Seq<u8>,
}

impl View for HostRegion {
    type V = HostRegionView;

    closed spec fn view(&self) -> HostRegionView {
        HostRegionView { base: self.base, data: self.data@ }
    }
}

/// One entry of the device table.
pub struct DeviceSlot {
    addr: PciAddress,
    max_buf_size: u64,
    open: u64,
    bound: u64,
}

/// Ghost image of a [`DeviceSlot`]: its address, the largest buffer a single
/// copy may use on it, the number of open handles, and the number of times an
/// open handle of it is registered into a memory map or an execution context.
pub struct DeviceSlotView {
    pub addr: PciAddress,
    pub max_buf_size: u64,
    pub open: u64,
    pub bound: u64,
}

impl View for DeviceSlot {
    type V = DeviceSlotView;

    closed spec fn view(&self) -> DeviceSlotView {
        DeviceSlotView {
            addr: self.addr,
            max_buf_size: self.max_buf_size,
            open: self.open,
            bound: self.bound,
        }
    }
}

/// `true` when the region holds the byte range `[addr, addr + len)`.
pub open spec fn region_contains(r: HostRegionView, addr: int, len: int) -> bool {
    r.base <= addr && addr + len <= r.base + r.data.len()
}

/// `true` when the two regions cover no common address.
pub open spec fn regions_disjoint(a: HostRegionView, b: HostRegionView) -> bool {
    a.base + a.data.len() <= b.base || b.base + b.data.len() <= a.base
}

/// Well-formed memory: every region is non-empty, ends within the address
/// space, and no two regions overlap.
pub open spec fn mem_wf(mv: Seq<HostRegionView>) -> bool {
    &&& forall|i: int|
        0 <= i < mv.len() ==> {
            &&& (#[trigger] mv[i]).data.len() > 0
            &&& mv[i].base + mv[i].data.len() <= u64::MAX
        }
    &&& forall|i: int, j: int|
        0 <= i < mv.len() && 0 <= j < mv.len() && i != j ==> regions_disjoint(
            #[trigger] mv[i],
            #[trigger] mv[j],
        )
}

/// `true` when some region holds the byte range `[addr, addr + len)`.
pub open spec fn mem_has_range(mv: Seq<HostRegionView>, addr: int, len: int) -> bool {
    exists|i: int| 0 <= i < mv.len() && region_contains(#[trigger] mv[i], addr, len)
}

/// The bytes stored at `[addr, addr + len)`.  Meaningful only when
/// `mem_has_range(mv, addr, len)` holds.
pub open spec fn mem_bytes(mv: Seq<HostRegionView>, addr: int, len: int) -> Seq<u8> {
    let i = choose|i: int| 0 <= i < mv.len() && region_contains(#[trigger] mv[i], addr, len);
    mv[i].data.subrange(addr - mv[i].base, addr - mv[i].base + len)
}

/// `true` when the range `[base, base + len)` shares an address with some
/// region.
pub open spec fn mem_overlaps(mv: Seq<HostRegionView>, base: int, len: int) -> bool {
    exists|i: int|
        0 <= i < mv.len() && (#[trigger] mv[i]).base < base + len && base < mv[i].base
            + mv[i].data.len()
}

/// The region after the bytes `data` are stored at address `addr`: unchanged
/// unless it holds the whole range, in which case the range is spliced in.
pub open spec fn region_store(r: HostRegionView, addr: int, data: Seq<u8>) -> HostRegionView {
    if region_contains(r, addr, data.len() as int) {
        HostRegionView {
            base: r.base,
            data: r.data.subrange(0, addr - r.base) + data + r.data.subrange(
                addr - r.base + data.len(),
                r.data.len() as int,
            ),
        }
    } else {
        r
    }
}

/// The memory after the bytes `data` are stored at address `addr`.
pub open spec fn mem_store(mv: Seq<HostRegionView>, addr: int, data: Seq<u8>) -> Seq<
    HostRegionView,
> {
    Seq::new(mv.len(), |i: int| region_store(mv[i], addr, data))
}

/// A sequence of `len` zero bytes.
pub open spec fn zero_seq(len: nat) -> Seq<u8> {
    Seq::new(len, |i: int| 0u8)
}

/// Well-formed device table: every address can be formatted.
pub open spec fn devs_wf(ds: Seq<DeviceSlotView>) -> bool {
    forall|i: int| 0 <= i < ds.len() ==> crate::device::pci_wf((#[trigger] ds[i]).addr)
}

/// Quiescent device table: no open handle and no registration anywhere.
pub open spec fn devs_quiescent(ds: Seq<DeviceSlotView>) -> bool {
    forall|i: int|
        0 <= i < ds.len() ==> (#[trigger] ds[i]).open == 0 && ds[i].bound == 0
}

/// At most one region holds a non-empty range.
pub proof fn lemma_region_unique(mv: Seq<HostRegionView>, addr: int, len: int, i: int, j: int)
    requires
        mem_wf(mv),
        0 <= i < mv.len(),
        0 <= j < mv.len(),
        region_contains(mv[i], addr, len),
        region_contains(mv[j], addr, len),
        len > 0,
    ensures
        i == j,
{
    if i != j {
        assert(regions_disjoint(mv[i], mv[j]));
    }
}

/// `mem_bytes` reads from the one region that holds the range.
pub proof fn lemma_mem_bytes_of(mv: Seq<HostRegionView>, addr: int, len: int, i: int)
    requires
        mem_wf(mv),
        0 <= i < mv.len(),
        region_contains(mv[i], addr, len),
        len > 0,
    ensures
        mem_bytes(mv, addr, len) == mv[i].data.subrange(addr - mv[i].base, addr - mv[i].base + len),
{
    let j = choose|j: int| 0 <= j < mv.len() && region_contains(#[trigger] mv[j], addr, len);
    lemma_region_unique(mv, addr, len, i, j);
}

/// A store keeps every region's base and length.
pub proof fn lemma_store_geometry(mv: Seq<HostRegionView>, addr: int, data: Seq<u8>)
    ensures
        mem_store(mv, addr, data).len() == mv.len(),
        forall|i: int|
            0 <= i < mv.len() ==> (#[trigger] mem_store(mv, addr, data)[i]).base == mv[i].base
                && mem_store(mv, addr, data)[i].data.len() == mv[i].data.len(),
{
    let sv = mem_store(mv, addr, data);
    assert forall|i: int| 0 <= i < mv.len() implies (#[trigger] sv[i]).base == mv[i].base
        && sv[i].data.len() == mv[i].data.len() by {
        if region_contains(mv[i], addr, data.len() as int) {
            assert(sv[i].data.len() == (addr - mv[i].base) + data.len() + (mv[i].data.len() - (addr
                - mv[i].base) - data.len()));
        }
    }
}

/// A store keeps the memory well-formed and keeps every range in place.
pub proof fn lemma_store_wf(mv: Seq<HostRegionView>, addr: int, data: Seq<u8>)
    requires
        mem_wf(mv),
    ensures
        mem_wf(mem_store(mv, addr, data)),
        forall|a: int, l: int|
            mem_has_range(mem_store(mv, addr, data), a, l) == #[trigger] mem_has_range(mv, a, l),
{
    let sv = mem_store(mv, addr, data);
    lemma_store_geometry(mv, addr, data);
    assert forall|a: int, l: int| #[trigger]
        mem_has_range(sv, a, l) == mem_has_range(mv, a, l) by {
        assert forall|i: int| 0 <= i < mv.len() implies region_contains(sv[i], a, l)
            == region_contains(mv[i], a, l) by {}
        if mem_has_range(mv, a, l) {
            let i = choose|i: int| 0 <= i < mv.len() && region_contains(#[trigger] mv[i], a, l);
            assert(region_contains(sv[i], a, l));
        }
        if mem_has_range(sv, a, l) {
            let i = choose|i: int| 0 <= i < sv.len() && region_contains(#[trigger] sv[i], a, l);
            assert(region_contains(mv[i], a, l));
        }
    }
}

/// Reading back a stored range yields the stored bytes.
pub proof fn lemma_store_bytes(mv: Seq<HostRegionView>, addr: int, data: Seq<u8>)
    requires
        mem_wf(mv),
        mem_has_range(mv, addr, data.len() as int),
        data.len() > 0,
    ensures
        mem_bytes(mem_store(mv, addr, data), addr, data.len() as int) == data,
{
    let sv = mem_store(mv, addr, data);
    let len = data.len() as int;
    let i = choose|i: int| 0 <= i < mv.len() && region_contains(#[trigger] mv[i], addr, len);
    lemma_store_geometry(mv, addr, data);
    lemma_store_wf(mv, addr, data);
    assert(region_contains(sv[i], addr, len));
    lemma_mem_bytes_of(sv, addr, len, i);
    let off = addr - mv[i].base;
    assert(sv[i].data.subrange(off, off + len) =~= data);
}

/// A store leaves every disjoint range unchanged.
pub proof fn lemma_store_frame(
    mv: Seq<HostRegionView>,
    addr: int,
    data: Seq<u8>,
    addr2: int,
    len2: int,
)
    requires
        mem_wf(mv),
        mem_has_range(mv, addr2, len2),
        len2 > 0,
        addr + data.len() <= addr2 || addr2 + len2 <= addr,
    ensures
        mem_bytes(mem_store(mv, addr, data), addr2, len2) == mem_bytes(mv, addr2, len2),
{
    let sv = mem_store(mv, addr, data);
    let i = choose|i: int| 0 <= i < mv.len() && region_contains(#[trigger] mv[i], addr2, len2);
    lemma_store_geometry(mv, addr, data);
    lemma_store_wf(mv, addr, data);
    lemma_mem_bytes_of(mv, addr2, len2, i);
    assert(region_contains(sv[i], addr2, len2));
    lemma_mem_bytes_of(sv, addr2, len2, i);
    let off2 = addr2 - mv[i].base;
    if region_contains(mv[i], addr, data.len() as int) {
        let off = addr - mv[i].base;
        assert(sv[i].data.subrange(off2, off2 + len2) =~= mv[i].data.subrange(off2, off2 + len2));
    } else {
        assert(sv[i] == mv[i]);
    }
}

/// The device table after one registration of each device in `idxs[k..]` is
/// added, front to back: the effect of building a memory map or an execution
/// context over those devices.
pub open spec fn spec_bind_from(ds: Seq<DeviceSlotView>, idxs: Seq<usize>, k: int) -> Seq<
    DeviceSlotView,
>
    decreases idxs.len() - k,
{
    if k < 0 || k >= idxs.len() {
        ds
    } else {
        spec_bind_from(
            ds.update(
                idxs[k] as int,
                DeviceSlotView { bound: (ds[idxs[k] as int].bound + 1) as u64, ..ds[
                    idxs[k] as int
                ] },
            ),
            idxs,
            k + 1,
        )
    }
}

/// The device table after one registration of each device in `idxs[k..]` is
/// removed, front to back: the effect of tearing such an object down.
pub open spec fn spec_unbind_from(ds: Seq<DeviceSlotView>, idxs: Seq<usize>, k: int) -> Seq<
    DeviceSlotView,
>
    decreases idxs.len() - k,
{
    if k < 0 || k >= idxs.len() {
        ds
    } else {
        spec_unbind_from(
            ds.update(
                idxs[k] as int,
                DeviceSlotView { bound: (ds[idxs[k] as int].bound - 1) as u64, ..ds[
                    idxs[k] as int
                ] },
            ),
            idxs,
            k + 1,
        )
    }
}

/// Registrations from position `k` on leave a slot outside `idxs[k..]`
/// untouched, and commute with an update of that slot.
proof fn lemma_bind_from_frame(ds: Seq<DeviceSlotView>, idxs: Seq<usize>, k: int, j: int, v: DeviceSlotView)
    requires
        0 <= j < ds.len(),
        forall|m: int| k <= m < idxs.len() ==> (#[trigger] idxs[m]) != j,
        forall|m: int| k <= m < idxs.len() ==> (#[trigger] idxs[m]) < ds.len(),
    ensures
        spec_bind_from(ds.update(j, v), idxs, k) == spec_bind_from(ds, idxs, k).update(j, v),
    decreases idxs.len() - k,
{
    if 0 <= k < idxs.len() {
        let i0 = idxs[k] as int;
        let ds1 = ds.update(
            i0,
            DeviceSlotView { bound: (ds[i0].bound + 1) as u64, ..ds[i0] },
        );
        let dsj = ds.update(j, v);
        let dsj1 = dsj.update(
            i0,
            DeviceSlotView { bound: (dsj[i0].bound + 1) as u64, ..dsj[i0] },
        );
        assert(dsj1 =~= ds1.update(j, v));
        lemma_bind_from_frame(ds1, idxs, k + 1, j, v);
    } else {
        assert(spec_bind_from(ds.update(j, v), idxs, k) == ds.update(j, v));
    }
}

/// Registrations change no slot count: the table keeps its length.
proof fn lemma_bind_from_len(ds: Seq<DeviceSlotView>, idxs: Seq<usize>, k: int)
    requires
        forall|m: int| k <= m < idxs.len() ==> (#[trigger] idxs[m]) < ds.len(),
    ensures
        spec_bind_from(ds, idxs, k).len() == ds.len(),
    decreases idxs.len() - k,
{
    if 0 <= k < idxs.len() {
        let i0 = idxs[k] as int;
        lemma_bind_from_len(
            ds.update(i0, DeviceSlotView { bound: (ds[i0].bound + 1) as u64, ..ds[i0] }),
            idxs,
            k + 1,
        );
    }
}

/// Tearing down undoes building up: adding one registration of each listed
/// device and then removing one of each, in the same order, leaves the
/// device table exactly as it was.  This is the teardown-ordering law: a
/// chain that is constructed and then destroyed leaks no registration.
pub proof fn lemma_bind_unbind_restores(ds: Seq<DeviceSlotView>, idxs: Seq<usize>, k: int)
    requires
        0 <= k <= idxs.len(),
        forall|p: int, q: int|
            k <= p < idxs.len() && k <= q < idxs.len() && p != q ==> idxs[p] != idxs[q],
        forall|m: int|
            k <= m < idxs.len() ==> (#[trigger] idxs[m]) < ds.len() && ds[idxs[m] as int].bound
                < u64::MAX,
    ensures
        spec_unbind_from(spec_bind_from(ds, idxs, k), idxs, k) == ds,
    decreases idxs.len() - k,
{
    if k < idxs.len() {
        let i0 = idxs[k] as int;
        let up = DeviceSlotView { bound: (ds[i0].bound + 1) as u64, ..ds[i0] };
        let ds1 = ds.update(i0, up);
        assert(spec_bind_from(ds, idxs, k) == spec_bind_from(ds1, idxs, k + 1));
        lemma_bind_from_frame(ds1, idxs, k + 1, i0, up);
        let b1 = spec_bind_from(ds1, idxs, k + 1);
        lemma_bind_from_len(ds1, idxs, k + 1);
        assert(b1.len() == ds.len());
        assert(ds1 =~= ds1.update(i0, up));
        assert(b1 == spec_bind_from(ds1, idxs, k + 1).update(i0, up)) by {
            lemma_bind_from_frame(ds1, idxs, k + 1, i0, up);
            assert(spec_bind_from(ds1.update(i0, up), idxs, k + 1) == spec_bind_from(
                ds1,
                idxs,
                k + 1,
            ).update(i0, up));
        }
        assert(b1[i0] == up);
        let down = DeviceSlotView { bound: (b1[i0].bound - 1) as u64, ..b1[i0] };
        assert(down == ds[i0]);
        assert(spec_unbind_from(b1, idxs, k) == spec_unbind_from(b1.update(i0, down), idxs, k + 1));
        assert(b1.update(i0, down) =~= spec_bind_from(ds1, idxs, k + 1).update(i0, ds[i0]));
        lemma_bind_from_frame(ds1, idxs, k + 1, i0, ds[i0]);
        assert(b1.update(i0, down) == spec_bind_from(ds1.update(i0, ds[i0]), idxs, k + 1));
        assert(ds1.update(i0, ds[i0]) =~= ds);
        lemma_bind_unbind_restores(ds, idxs, k + 1);
        assert(spec_bind_from(ds1.update(i0, ds[i0]), idxs, k + 1) == spec_bind_from(
            ds,
            idxs,
            k + 1,
        ));
    }
}

/// The observable state of the offload backend: the DMA-visible host memory
/// and the device table.
pub struct Backend {
    regions: Vec<HostRegion>,
    devices: Vec<DeviceSlot>,
}

impl Backend {
    /// The memory view: one entry per allocated region.
    pub closed spec fn mem(self) -> Seq<HostRegionView> {
        Seq::new(self.regions@.len(), |i: int| self.regions@[i]@)
    }

    /// The device table view.
    pub closed spec fn devs(self) -> Seq<DeviceSlotView> {
        Seq::new(self.devices@.len(), |i: int| self.devices@[i]@)
    }

    /// Well-formedness: the memory regions are non-empty and disjoint, and
    /// every device address can be formatted.
    pub open spec fn wf(self) -> bool {
        mem_wf(self.mem()) && devs_wf(self.devs())
    }

    /// A fresh backend: no memory, no devices.
    pub fn new() -> (r: Backend)
        ensures
            r.wf(),
            r.mem().len() == 0,
            r.devs().len() == 0,
    {
        Backend { regions: Vec::new(), devices: Vec::new() }
    }

    /// Adds a device to the table, with no open handle yet, and returns its
    /// stable index.
    pub fn register_device(&mut self, addr: PciAddress, max_buf_size: u64) -> (idx: usize)
        requires
            old(self).wf(),
            crate::device::pci_wf(addr),
        ensures
            final(self).wf(),
            idx == old(self).devs().len(),
            final(self).mem() == old(self).mem(),
            final(self).devs() == old(self).devs().push(
                DeviceSlotView { addr, max_buf_size, open: 0, bound: 0 },
            ),
    {
        let idx = self.devices.len();
        self.devices.push(DeviceSlot { addr, max_buf_size, open: 0, bound: 0 });
        proof {
            assert(final(self).mem() =~~= old(self).mem());
            assert(final(self).devs() =~~= old(self).devs().push(
                DeviceSlotView { addr, max_buf_size, open: 0, bound: 0 },
            ));
        }
        idx
    }

    /// Allocates a zero-filled region of `len` bytes at address `base`.
    /// Rejected when the length is zero, the range leaves the address space,
    /// or the range overlaps an existing region.
    pub fn alloc_region(&mut self, base: u64, len: usize) -> (r: DOCAResult<()>)
        requires
            old(self).wf(),
        ensures
            final(self).wf(),
            final(self).devs() == old(self).devs(),
            r is Ok <==> len > 0 && base + len <= u64::MAX && !mem_overlaps(
                old(self).mem(),
                base as int,
                len as int,
            ),
            r is Ok ==> final(self).mem() == old(self).mem().push(
                HostRegionView { base, data: zero_seq(len as nat) },
            ),
            r is Err ==> final(self).mem() == old(self).mem() && r == Err::<(), DOCAError>(
                DOCAError::InvalidValue,
            ),
    {
        if len == 0 || base > u64::MAX - (len as u64) {
            return Err(DOCAError::InvalidValue);
        }
        let end: u64 = base + (len as u64);
        let n = self.regions.len();
        let mut i: usize = 0;
        while i < n
            invariant
                n == self.regions.len(),
                i <= n,
                self.wf(),
                len > 0,
                base + len <= u64::MAX,
                end == base + len,
                forall|j: int|
                    0 <= j < i ==> !((#[trigger] self.mem()[j]).base < end && base < self.mem()[j].base
                        + self.mem()[j].data.len()),
            decreases n - i,
        {
            let rbase = self.regions[i].base;
            let rlen = self.regions[i].data.len();
            assert(self.mem()[i as int].base == rbase && self.mem()[i as int].data.len() == rlen);
            if rbase < end && base < rbase + (rlen as u64) {
                proof {
                    assert((self.mem()[i as int]).base < base + len && base < self.mem()[
                        i as int
                    ].base + self.mem()[i as int].data.len());
                }
                return Err(DOCAError::InvalidValue);
            }
            i = i + 1;
        }
        let mut data: Vec<u8> = Vec::new();
        let mut k: usize = 0;
        while k < len
            invariant
                k <= len,
                data@ =~= zero_seq(k as nat),
            decreases len - k,
        {
            data.push(0u8);
            proof {
                assert(data@ =~= zero_seq(k as nat).push(0u8));
                assert(zero_seq(k as nat).push(0u8) =~= zero_seq((k + 1) as nat));
            }
            k = k + 1;
        }
        let region = HostRegion { base, data };
        proof {
            assert(region@ == HostRegionView { base, data: zero_seq(len as nat) });
        }
        self.regions.push(region);
        proof {
            assert(final(self).mem() =~~= old(self).mem().push(
                HostRegionView { base, data: zero_seq(len as nat) },
            ));
            assert(final(self).devs() =~~= old(self).devs());
            assert forall|p: int, q: int|
                0 <= p < final(self).mem().len() && 0 <= q < final(self).mem().len() && p
                    != q implies regions_disjoint(
                #[trigger] final(self).mem()[p],
                #[trigger] final(self).mem()[q],
            ) by {
                let m = final(self).mem();
                let omv = old(self).mem();
                if p < omv.len() && q < omv.len() {
                    assert(regions_disjoint(omv[p], omv[q]));
                } else if p == omv.len() {
                    assert(!(omv[q].base < end && base < omv[q].base + omv[q].data.len()));
                } else {
                    assert(!(omv[p].base < end && base < omv[p].base + omv[p].data.len()));
                }
            }
        }
        Ok(())
    }

    /// The index of a region that holds `[addr, addr + len)`, if any.
    fn find_region(&self, addr: u64, len: usize) -> (r: Option<usize>)
        requires
            self.wf(),
        ensures
            r matches Some(i) ==> i < self.mem().len() && region_contains(
                self.mem()[i as int],
                addr as int,
                len as int,
            ),
            r is None ==> !mem_has_range(self.mem(), addr as int, len as int),
    {
        let n = self.regions.len();
        let mut i: usize = 0;
        while i < n
            invariant
                n == self.regions.len(),
                i <= n,
                self.wf(),
                forall|j: int|
                    0 <= j < i ==> !region_contains(
                        #[trigger] self.mem()[j],
                        addr as int,
                        len as int,
                    ),
            decreases n - i,
        {
            let rbase = self.regions[i].base;
            let rlen = self.regions[i].data.len();
            assert(self.mem()[i as int].base == rbase && self.mem()[i as int].data.len() == rlen);
            if rbase <= addr {
                let off: u64 = addr - rbase;
                if off <= rlen as u64 && (len as u64) <= (rlen as u64) - off {
                    return Some(i);
                }
            }
            i = i + 1;
        }
        None
    }

    /// `true` when the byte range `[addr, addr + len)` lies within one
    /// allocated region.
    pub fn covers(&self, addr: u64, len: usize) -> (r: bool)
        requires
            self.wf(),
        ensures
            r == mem_has_range(self.mem(), addr as int, len as int),
    {
        self.find_region(addr, len).is_some()
    }

    /// Reads `len` bytes at address `addr`.  Rejected when the range is not
    /// covered by one allocated region.
    pub fn read_bytes(&self, addr: u64, len: usize) -> (r: DOCAResult<Vec<u8>>)
        requires
            self.wf(),
        ensures
            r is Ok <==> mem_has_range(self.mem(), addr as int, len as int),
            r matches Ok(v) ==> v@ == mem_bytes(self.mem(), addr as int, len as int) && v@.len()
                == len,
            r matches Err(e) ==> e == DOCAError::InvalidValue,
    {
        match self.find_region(addr, len) {
            None => Err(DOCAError::InvalidValue),
            Some(i) => {
                let rbase = self.regions[i].base;
                let rlen = self.regions[i].data.len();
                proof {
                    assert(self.mem()[i as int].base == rbase);
                    assert(self.mem()[i as int].data.len() == rlen);
                }
                let off: usize = (addr - rbase) as usize;
                let mut out: Vec<u8> = Vec::new();
                let ghost rdata = self.mem()[i as int].data;
                let mut k: usize = 0;
                while k < len
                    invariant
                        k <= len,
                        i < self.regions.len(),
                        self.mem()[i as int].data == rdata,
                        self.mem()[i as int].base == rbase,
                        off == addr - rbase,
                        region_contains(self.mem()[i as int], addr as int, len as int),
                        rlen == rdata.len(),
                        off + len <= rlen,
                        out@ =~= rdata.subrange(off as int, off + k),
                    decreases len - k,
                {
                    let b = self.regions[i].data[off + k];
                    assert(b == rdata[off + k]);
                    out.push(b);
                    proof {
                        assert(out@ =~= rdata.subrange(off as int, off + k + 1));
                    }
                    k = k + 1;
                }
                proof {
                    if len > 0 {
                        lemma_mem_bytes_of(self.mem(), addr as int, len as int, i as int);
                    } else {
                        assert(out@ =~= Seq::<u8>::empty());
                        assert(mem_bytes(self.mem(), addr as int, 0) =~= Seq::<u8>::empty());
                    }
                }
                Ok(out)
            },
        }
    }

    /// Writes the bytes of `data` at address `addr`.  Rejected when the range
    /// is not covered by one allocated region.
    pub fn write_bytes(&mut self, addr: u64, data: &Vec<u8>) -> (r: DOCAResult<()>)
        requires
            old(self).wf(),
        ensures
            final(self).wf(),
            final(self).devs() == old(self).devs(),
            r is Ok <==> mem_has_range(old(self).mem(), addr as int, data@.len() as int),
            r is Ok ==> final(self).mem() == mem_store(old(self).mem(), addr as int, data@),
            r is Err ==> final(self).mem() == old(self).mem() && r == Err::<(), DOCAError>(
                DOCAError::InvalidValue,
            ),
    {
        let len = data.len();
        match self.find_region(addr, len) {
            None => Err(DOCAError::InvalidValue),
            Some(i) => {
                let ghost omv = self.mem();
                if len == 0 {
                    proof {
                        assert forall|j: int| 0 <= j < omv.len() implies mem_store(
                            omv,
                            addr as int,
                            data@,
                        )[j] == omv[j] by {
                            if region_contains(omv[j], addr as int, 0) {
                                assert(region_store(omv[j], addr as int, data@).data =~= omv[j].data);
                            }
                        }
                        assert(mem_store(omv, addr as int, data@) =~~= omv);
                    }
                    return Ok(());
                }
                let mut region = self.regions.remove(i);
                let rbase = region.base;
                proof {
                    assert(region@ == omv[i as int]);
                    assert(addr - rbase <= region.data.len());
                }
                let off: usize = (addr - rbase) as usize;
                let ghost rdata = region@.data;
                let mut k: usize = 0;
                while k < len
                    invariant
                        k <= len,
                        len == data@.len(),
                        region.base == rbase,
                        region@.data.len() == rdata.len(),
                        off == addr - rbase,
                        off + len <= region.data.len(),
                        forall|m: int|
                            0 <= m < rdata.len() ==> region@.data[m] == if off <= m < off + k {
                                data@[m - off]
                            } else {
                                rdata[m]
                            },
                    decreases len - k,
                {
                    let b = data[k];
                    region.data[off + k] = b;
                    k = k + 1;
                }
                proof {
                    assert(region@.data =~= rdata.subrange(0, off as int) + data@ + rdata.subrange(
                        off + len,
                        rdata.len() as int,
                    ));
                    assert(region@ == region_store(omv[i as int], addr as int, data@));
                }
                self.regions.insert(i, region);
                proof {
                    let fmv = final(self).mem();
                    let smv = mem_store(omv, addr as int, data@);
                    assert forall|j: int| 0 <= j < omv.len() implies fmv[j] == smv[j] by {
                        if j != i {
                            assert(fmv[j] == omv[j]);
                            lemma_region_unique_helper(omv, addr as int, len as int, i as int, j);
                        }
                    }
                    assert(fmv =~~= smv);
                    lemma_store_wf(omv, addr as int, data@);
                    assert(final(self).devs() =~~= old(self).devs());
                }
                Ok(())
            },
        }
    }

    /// The number of devices in the table.
    pub fn device_count(&self) -> (r: usize)
        ensures
            r == self.devs().len(),
    {
        self.devices.len()
    }

    /// The address of the device at `idx`.
    pub(crate) fn device_addr(&self, idx: usize) -> (a: PciAddress)
        requires
            idx < self.devs().len(),
        ensures
            a == self.devs()[idx as int].addr,
    {
        self.devices[idx].addr
    }

    /// The number of open handles of the device at `idx`.
    pub(crate) fn device_open_count(&self, idx: usize) -> (r: u64)
        requires
            idx < self.devs().len(),
        ensures
            r == self.devs()[idx as int].open,
    {
        self.devices[idx].open
    }

    /// The number of registrations of the device at `idx`.
    pub(crate) fn device_bound(&self, idx: usize) -> (r: u64)
        requires
            idx < self.devs().len(),
        ensures
            r == self.devs()[idx as int].bound,
    {
        self.devices[idx].bound
    }

    /// The largest buffer one copy may use on the device at `idx`.
    pub(crate) fn device_max_buf(&self, idx: usize) -> (r: u64)
        requires
            idx < self.devs().len(),
        ensures
            r == self.devs()[idx as int].max_buf_size,
    {
        self.devices[idx].max_buf_size
    }

    /// Opens one more handle to the device at `idx`.
    pub(crate) fn open_slot(&mut self, idx: usize) -> (r: DOCAResult<()>)
        requires
            old(self).wf(),
        ensures
            final(self).wf(),
            final(self).mem() == old(self).mem(),
            r is Ok <==> idx < old(self).devs().len() && old(self).devs()[idx as int].open
                < u64::MAX,
            r is Ok ==> final(self).devs() == old(self).devs().update(
                idx as int,
                DeviceSlotView {
                    open: (old(self).devs()[idx as int].open + 1) as u64,
                    ..old(self).devs()[idx as int]
                },
            ),
            r is Err ==> final(self).devs() == old(self).devs(),
            idx >= old(self).devs().len() ==> r == Err::<(), DOCAError>(DOCAError::InvalidValue),
            r is Err && idx < old(self).devs().len() ==> r == Err::<(), DOCAError>(
                DOCAError::NoMemory,
            ),
    {
        if idx >= self.devices.len() {
            return Err(DOCAError::InvalidValue);
        }
        let cur = self.devices[idx].open;
        if cur == u64::MAX {
            return Err(DOCAError::NoMemory);
        }
        self.devices[idx].open = cur + 1;
        proof {
            assert(final(self).mem() =~~= old(self).mem());
            assert(final(self).devs() =~~= old(self).devs().update(
                idx as int,
                DeviceSlotView {
                    open: (old(self).devs()[idx as int].open + 1) as u64,
                    ..old(self).devs()[idx as int]
                },
            ));
        }
        Ok(())
    }

    /// Closes one handle to the device at `idx`.  Rejected while any memory
    /// map or execution context still has the device registered.
    pub(crate) fn close_slot(&mut self, idx: usize) -> (r: DOCAResult<()>)
        requires
            old(self).wf(),
        ensures
            final(self).wf(),
            final(self).mem() == old(self).mem(),
            r is Ok <==> idx < old(self).devs().len() && old(self).devs()[idx as int].open >= 1
                && old(self).devs()[idx as int].bound == 0,
            r is Ok ==> final(self).devs() == old(self).devs().update(
                idx as int,
                DeviceSlotView {
                    open: (old(self).devs()[idx as int].open - 1) as u64,
                    ..old(self).devs()[idx as int]
                },
            ),
            r is Err ==> final(self).devs() == old(self).devs(),
            idx >= old(self).devs().len() || (idx < old(self).devs().len() && old(self).devs()[
                idx as int
            ].open == 0) ==> r == Err::<(), DOCAError>(DOCAError::InvalidValue),
            idx < old(self).devs().len() && old(self).devs()[idx as int].open >= 1 && old(
                self,
            ).devs()[idx as int].bound > 0 ==> r == Err::<(), DOCAError>(DOCAError::NotPermitted),
    {
        if idx >= self.devices.len() {
            return Err(DOCAError::InvalidValue);
        }
        let cur = self.devices[idx].open;
        if cur == 0 {
            return Err(DOCAError::InvalidValue);
        }
        if self.devices[idx].bound > 0 {
            return Err(DOCAError::NotPermitted);
        }
        self.devices[idx].open = cur - 1;
        proof {
            assert(final(self).mem() =~~= old(self).mem());
            assert(final(self).devs() =~~= old(self).devs().update(
                idx as int,
                DeviceSlotView {
                    open: (old(self).devs()[idx as int].open - 1) as u64,
                    ..old(self).devs()[idx as int]
                },
            ));
        }
        Ok(())
    }

    /// Registers the device at `idx` into one more memory map or execution
    /// context.  Rejected when the device has no open handle.
    pub(crate) fn bind_slot(&mut self, idx: usize) -> (r: DOCAResult<()>)
        requires
            old(self).wf(),
        ensures
            final(self).wf(),
            final(self).mem() == old(self).mem(),
            r is Ok <==> idx < old(self).devs().len() && old(self).devs()[idx as int].open >= 1
                && old(self).devs()[idx as int].bound < u64::MAX,
            r is Ok ==> final(self).devs() == old(self).devs().update(
                idx as int,
                DeviceSlotView {
                    bound: (old(self).devs()[idx as int].bound + 1) as u64,
                    ..old(self).devs()[idx as int]
                },
            ),
            r is Err ==> final(self).devs() == old(self).devs(),
            idx >= old(self).devs().len() ==> r == Err::<(), DOCAError>(DOCAError::InvalidValue),
            idx < old(self).devs().len() && old(self).devs()[idx as int].open == 0 ==> r == Err::<
                (),
                DOCAError,
            >(DOCAError::NotPermitted),
            idx < old(self).devs().len() && old(self).devs()[idx as int].open >= 1 && old(
                self,
            ).devs()[idx as int].bound == u64::MAX ==> r == Err::<(), DOCAError>(
                DOCAError::NoMemory,
            ),
    {
        if idx >= self.devices.len() {
            return Err(DOCAError::InvalidValue);
        }
        if self.devices[idx].open == 0 {
            return Err(DOCAError::NotPermitted);
        }
        let cur = self.devices[idx].bound;
        if cur == u64::MAX {
            return Err(DOCAError::NoMemory);
        }
        self.devices[idx].bound = cur + 1;
        proof {
            assert(final(self).mem() =~~= old(self).mem());
            assert(final(self).devs() =~~= old(self).devs().update(
                idx as int,
                DeviceSlotView {
                    bound: (old(self).devs()[idx as int].bound + 1) as u64,
                    ..old(self).devs()[idx as int]
                },
            ));
        }
        Ok(())
    }

    /// Removes one registration of the device at `idx`.
    pub(crate) fn unbind_slot(&mut self, idx: usize) -> (r: DOCAResult<()>)
        requires
            old(self).wf(),
        ensures
            final(self).wf(),
            final(self).mem() == old(self).mem(),
            r is Ok <==> idx < old(self).devs().len() && old(self).devs()[idx as int].bound >= 1,
            r is Ok ==> final(self).devs() == old(self).devs().update(
                idx as int,
                DeviceSlotView {
                    bound: (old(self).devs()[idx as int].bound - 1) as u64,
                    ..old(self).devs()[idx as int]
                },
            ),
            r is Err ==> final(self).devs() == old(self).devs(),
            idx >= old(self).devs().len() ==> r == Err::<(), DOCAError>(DOCAError::InvalidValue),
            idx < old(self).devs().len() && old(self).devs()[idx as int].bound == 0 ==> r
                == Err::<(), DOCAError>(DOCAError::NotPermitted),
    {
        if idx >= self.devices.len() {
            return Err(DOCAError::InvalidValue);
        }
        let cur = self.devices[idx].bound;
        if cur == 0 {
            return Err(DOCAError::NotPermitted);
        }
        self.devices[idx].bound = cur - 1;
        proof {
            assert(final(self).mem() =~~= old(self).mem());
            assert(final(self).devs() =~~= old(self).devs().update(
                idx as int,
                DeviceSlotView {
                    bound: (old(self).devs()[idx as int].bound - 1) as u64,
                    ..old(self).devs()[idx as int]
                },
            ));
        }
        Ok(())
    }

    /// `true` when no device has an open handle or a live registration: a
    /// full teardown leaves the backend in this state.
    pub fn is_quiescent(&self) -> (r: bool)
        ensures
            r == devs_quiescent(self.devs()),
    {
        let n = self.devices.len();
        let mut i: usize = 0;
        while i < n
            invariant
                n == self.devices.len(),
                i <= n,
                forall|j: int|
                    0 <= j < i ==> (#[trigger] self.devs()[j]).open == 0 && self.devs()[j].bound
                        == 0,
            decreases n - i,
        {
            if self.devices[i].open != 0 || self.devices[i].bound != 0 {
                proof {
                    assert(self.devs()[i as int].open != 0 || self.devs()[i as int].bound != 0);
                }
                return false;
            }
            i = i + 1;
        }
        true
    }
}

/// A region other than the one holding a non-empty range does not hold the
/// range.
proof fn lemma_region_unique_helper(mv: Seq<HostRegionView>, addr: int, len: int, i: int, j: int)
    requires
        mem_wf(mv),
        0 <= i < mv.len(),
        0 <= j < mv.len(),
        region_contains(mv[i], addr, len),
        len > 0,
        i != j,
    ensures
        !region_contains(mv[j], addr, len),
{
    assert(regions_disjoint(mv[i], mv[j]));
}

} // verus!
