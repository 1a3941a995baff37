//! The execution context: an engine instance bound to one or more opened
//! devices, through which work queues submit jobs.
//!
//! A context owns its engine, so the engine outlives the context; it
//! registers every device it is built from and removes each one at teardown,
//! after stopping.  Construction either registers all devices and starts, or
//! registers none and reports the error: a failed construction leaks no
//! registration.

use vstd::prelude::*;

use crate::backend::Backend;
use crate::device::DevContext;
use crate::dma::DMAEngine;
use crate::error::DOCAError;
use crate::error::DOCAResult;
use crate::backend::spec_bind_from;
use crate::backend::spec_unbind_from;

verus! {

/// The device table indices of a list of open device handles.
pub open spec fn spec_dev_indices(ds: Seq<DevContext>) -> Seq<usize> {
    Seq::new(ds.len(), |i: int| ds[i].spec_index() as usize)
}

/// The failure that registering device `i` of the list would hit, if any: a
/// duplicate of an earlier entry or an index outside the table (invalid
/// value), a device with no open handle (not permitted), or a saturated
/// registration count (no memory).
pub open spec fn spec_ctx_dev_fail(
    idxs: Seq<usize>,
    ds: Seq<crate::backend::DeviceSlotView>,
    i: int,
) -> Option<DOCAError> {
    if exists|j: int| 0 <= j < i && idxs[j] == #[trigger] idxs[i] {
        Some(DOCAError::InvalidValue)
    } else if idxs[i] >= ds.len() {
        Some(DOCAError::InvalidValue)
    } else if ds[idxs[i] as int].open == 0 {
        Some(DOCAError::NotPermitted)
    } else if ds[idxs[i] as int].bound == u64::MAX {
        Some(DOCAError::NoMemory)
    } else {
        None
    }
}

/// The first failing registration's failure, scanning the list from `k`.
pub open spec fn spec_ctx_first_fail(
    idxs: Seq<usize>,
    ds: Seq<crate::backend::DeviceSlotView>,
    k: int,
) -> Option<DOCAError>
    decreases idxs.len() - k,
{
    if k < 0 || k >= idxs.len() {
        None
    } else if spec_ctx_dev_fail(idxs, ds, k) is Some {
        spec_ctx_dev_fail(idxs, ds, k)
    } else {
        spec_ctx_first_fail(idxs, ds, k + 1)
    }
}

/// With no failure before `k`, the first failure from the start is the
/// first failure from `k`.
proof fn lemma_ctx_first_fail_prefix(
    idxs: Seq<usize>,
    ds: Seq<crate::backend::DeviceSlotView>,
    j: int,
    k: int,
)
    requires
        0 <= j <= k <= idxs.len(),
        forall|m: int| j <= m < k ==> #[trigger] spec_ctx_dev_fail(idxs, ds, m) is None,
    ensures
        spec_ctx_first_fail(idxs, ds, j) == spec_ctx_first_fail(idxs, ds, k),
    decreases k - j,
{
    if j < k {
        lemma_ctx_first_fail_prefix(idxs, ds, j + 1, k);
    }
}

/// An execution context: an engine bound to devices, started on
/// construction.
pub struct DOCAContext {
    engine: DMAEngine,
    devices: Vec<usize>,
    started: bool,
    workqs: u64,
}

impl DOCAContext {
    /// The device table indices this context registered.
    pub closed spec fn devices_view(self) -> Seq<usize> {
        Seq::new(self.devices@.len(), |i: int| self.devices@[i])
    }

    /// `true` while the context is started.
    pub closed spec fn spec_started(self) -> bool {
        self.started
    }

    /// The number of work queues attached to this context.
    pub closed spec fn spec_workqs(self) -> u64 {
        self.workqs
    }

    /// Well-formedness: no device is registered twice.
    pub open spec fn wf(self) -> bool {
        forall|i: int, j: int|
            0 <= i < self.devices_view().len() && 0 <= j < self.devices_view().len() && i != j
                ==> self.devices_view()[i] != self.devices_view()[j]
    }

    /// Builds a context from an engine and a non-empty list of opened
    /// devices, registering each device, and starts it.  On failure the
    /// reported error is the first registration's failure, and nothing
    /// stays registered: the backend is exactly as before the call.
    pub fn new(engine: DMAEngine, added_devs: &Vec<DevContext>, backend: &mut Backend) -> (r:
        DOCAResult<DOCAContext>)
        requires
            old(backend).wf(),
        ensures
            final(backend).wf(),
            final(backend).mem() == old(backend).mem(),
            r is Ok <==> {
                &&& added_devs@.len() > 0
                &&& (forall|i: int, j: int|
                    0 <= i < added_devs@.len() && 0 <= j < added_devs@.len() && i != j
                        ==> spec_dev_indices(added_devs@)[i] != spec_dev_indices(added_devs@)[j])
                &&& (forall|i: int|
                    0 <= i < added_devs@.len() ==> (#[trigger] spec_dev_indices(added_devs@)[i])
                        < old(backend).devs().len() && old(backend).devs()[
                        spec_dev_indices(added_devs@)[i] as int
                    ].open >= 1 && old(backend).devs()[
                        spec_dev_indices(added_devs@)[i] as int
                    ].bound < u64::MAX)
            },
            r matches Ok(c) ==> {
                &&& c.wf()
                &&& c.spec_started()
                &&& c.spec_workqs() == 0
                &&& c.devices_view() == spec_dev_indices(added_devs@)
                &&& final(backend).devs() == spec_bind_from(
                    old(backend).devs(),
                    spec_dev_indices(added_devs@),
                    0,
                )
            },
            r is Err ==> final(backend).devs() == old(backend).devs(),
            added_devs@.len() == 0 ==> r == Err::<DOCAContext, DOCAError>(DOCAError::InvalidValue),
            added_devs@.len() > 0 ==> (r matches Err(e) ==> Some(e) == spec_ctx_first_fail(
                spec_dev_indices(added_devs@),
                old(backend).devs(),
                0,
            )),
    {
        let ghost idxs = spec_dev_indices(added_devs@);
        let n = added_devs.len();
        if n == 0 {
            return Err(DOCAError::InvalidValue);
        }
        let mut i: usize = 0;
        while i < n
            invariant
                backend == old(backend),
                backend.wf(),
                n == added_devs@.len(),
                i <= n,
                idxs == spec_dev_indices(added_devs@),
                forall|p: int, q: int| 0 <= p < i && 0 <= q < p ==> idxs[p] != idxs[q],
                forall|p: int|
                    0 <= p < i ==> (#[trigger] idxs[p]) < backend.devs().len() && backend.devs()[
                        idxs[p] as int
                    ].open >= 1 && backend.devs()[idxs[p] as int].bound < u64::MAX,
                forall|p: int|
                    0 <= p < i ==> #[trigger] spec_ctx_dev_fail(idxs, backend.devs(), p) is None,
            decreases n - i,
        {
            let di = added_devs[i].index();
            proof {
                assert(idxs[i as int] == di);
            }
            let mut j: usize = 0;
            while j < i
                invariant
                    backend == old(backend),
                    backend.wf(),
                    n == added_devs@.len(),
                    j <= i < n,
                    idxs == spec_dev_indices(added_devs@),
                    di == idxs[i as int],
                    forall|q: int| 0 <= q < j ==> idxs[q] != di,
                    forall|p: int|
                        0 <= p < i ==> #[trigger] spec_ctx_dev_fail(idxs, backend.devs(), p)
                            is None,
                decreases i - j,
            {
                if added_devs[j].index() == di {
                    proof {
                        assert(idxs[j as int] == di);
                        assert(spec_ctx_dev_fail(idxs, backend.devs(), i as int) == Some(
                            DOCAError::InvalidValue,
                        ));
                        lemma_ctx_first_fail_prefix(idxs, backend.devs(), 0, i as int);
                    }
                    return Err(DOCAError::InvalidValue);
                }
                j = j + 1;
            }
            proof {
                assert(forall|q: int| 0 <= q < i ==> idxs[q] != idxs[i as int]);
            }
            if di >= backend.device_count() {
                proof {
                    assert(spec_ctx_dev_fail(idxs, backend.devs(), i as int) == Some(
                        DOCAError::InvalidValue,
                    ));
                    lemma_ctx_first_fail_prefix(idxs, backend.devs(), 0, i as int);
                }
                return Err(DOCAError::InvalidValue);
            }
            if backend.device_open_count(di) == 0 {
                proof {
                    assert(spec_ctx_dev_fail(idxs, backend.devs(), i as int) == Some(
                        DOCAError::NotPermitted,
                    ));
                    lemma_ctx_first_fail_prefix(idxs, backend.devs(), 0, i as int);
                }
                return Err(DOCAError::NotPermitted);
            }
            if backend.device_bound(di) == u64::MAX {
                proof {
                    assert(spec_ctx_dev_fail(idxs, backend.devs(), i as int) == Some(
                        DOCAError::NoMemory,
                    ));
                    lemma_ctx_first_fail_prefix(idxs, backend.devs(), 0, i as int);
                }
                return Err(DOCAError::NoMemory);
            }
            proof {
                assert(spec_ctx_dev_fail(idxs, backend.devs(), i as int) is None);
            }
            i = i + 1;
        }
        let ghost odevs = backend.devs();
        let mut devices: Vec<usize> = Vec::new();
        let mut k: usize = 0;
        while k < n
            invariant
                backend.wf(),
                backend.mem() == old(backend).mem(),
                n == added_devs@.len(),
                k <= n,
                idxs == spec_dev_indices(added_devs@),
                odevs == old(backend).devs(),
                backend.devs().len() == odevs.len(),
                devices@.len() == k,
                forall|p: int| 0 <= p < k ==> devices@[p] == idxs[p],
                forall|p: int, q: int| 0 <= p < n && 0 <= q < p ==> idxs[p] != idxs[q],
                forall|p: int|
                    k <= p < n ==> (#[trigger] idxs[p]) < backend.devs().len() && backend.devs()[
                        idxs[p] as int
                    ].open >= 1 && backend.devs()[idxs[p] as int].bound < u64::MAX,
                spec_bind_from(odevs, idxs, 0) == spec_bind_from(backend.devs(), idxs, k as int),
            decreases n - k,
        {
            let di = added_devs[k].index();
            proof {
                assert(idxs[k as int] == di);
            }
            match backend.bind_slot(di) {
                Ok(()) => {
                    proof {
                        assert forall|p: int|
                            k + 1 <= p < n implies (#[trigger] idxs[p]) < backend.devs().len()
                            && backend.devs()[idxs[p] as int].open >= 1 && backend.devs()[
                            idxs[p] as int
                        ].bound < u64::MAX by {
                            assert(idxs[p] != idxs[k as int]);
                        }
                    }
                },
                Err(e) => {
                    proof {
                        assert(false);
                    }
                    return Err(e);
                },
            }
            devices.push(di);
            k = k + 1;
        }
        proof {
            assert(spec_bind_from(backend.devs(), idxs, n as int) == backend.devs());
        }
        let ctx = DOCAContext { engine, devices, started: true, workqs: 0 };
        proof {
            assert(ctx.devices_view() =~= idxs);
        }
        Ok(ctx)
    }

    /// Finalizes configuration and starts the context.  Rejected while the
    /// context is already started.
    pub fn start(&mut self) -> (r: DOCAResult<()>)
        ensures
            r is Ok <==> !old(self).spec_started(),
            r is Ok ==> final(self).spec_started(),
            r is Err ==> *final(self) == *old(self) && r == Err::<(), DOCAError>(
                DOCAError::InvalidValue,
            ),
            final(self).devices_view() == old(self).devices_view(),
            final(self).spec_workqs() == old(self).spec_workqs(),
            old(self).wf() ==> final(self).wf(),
    {
        if self.started {
            return Err(DOCAError::InvalidValue);
        }
        self.started = true;
        proof {
            assert(self.devices_view() =~= old(self).devices_view());
        }
        Ok(())
    }

    /// Stops the context, allowing reconfiguration.  Rejected while the
    /// context is not started or while work queues are still attached.
    pub fn stop(&mut self) -> (r: DOCAResult<()>)
        ensures
            r is Ok <==> old(self).spec_started() && old(self).spec_workqs() == 0,
            r is Ok ==> !final(self).spec_started(),
            r is Err ==> *final(self) == *old(self),
            r matches Err(e) ==> e == DOCAError::InvalidValue || e == DOCAError::NotPermitted,
            final(self).devices_view() == old(self).devices_view(),
            final(self).spec_workqs() == old(self).spec_workqs(),
            old(self).wf() ==> final(self).wf(),
    {
        if !self.started {
            return Err(DOCAError::InvalidValue);
        }
        if self.workqs > 0 {
            return Err(DOCAError::NotPermitted);
        }
        self.started = false;
        proof {
            assert(self.devices_view() =~= old(self).devices_view());
        }
        Ok(())
    }

    /// Attaches one more work queue.  The context must be started.
    pub(crate) fn note_workq_add(&mut self) -> (r: DOCAResult<()>)
        ensures
            r is Ok <==> old(self).spec_started() && old(self).spec_workqs() < u64::MAX,
            r is Ok ==> final(self).spec_workqs() == old(self).spec_workqs() + 1,
            r is Err ==> *final(self) == *old(self),
            r matches Err(e) ==> e == DOCAError::NotPermitted || e == DOCAError::NoMemory,
            final(self).devices_view() == old(self).devices_view(),
            final(self).spec_started() == old(self).spec_started(),
            old(self).wf() ==> final(self).wf(),
    {
        if !self.started {
            return Err(DOCAError::NotPermitted);
        }
        if self.workqs == u64::MAX {
            return Err(DOCAError::NoMemory);
        }
        self.workqs = self.workqs + 1;
        proof {
            assert(self.devices_view() =~= old(self).devices_view());
        }
        Ok(())
    }

    /// Detaches one work queue.
    pub(crate) fn note_workq_rm(&mut self) -> (r: DOCAResult<()>)
        ensures
            r is Ok <==> old(self).spec_workqs() >= 1,
            r is Ok ==> final(self).spec_workqs() == old(self).spec_workqs() - 1,
            r is Err ==> *final(self) == *old(self) && r == Err::<(), DOCAError>(
                DOCAError::InvalidValue,
            ),
            final(self).devices_view() == old(self).devices_view(),
            final(self).spec_started() == old(self).spec_started(),
            old(self).wf() ==> final(self).wf(),
    {
        if self.workqs == 0 {
            return Err(DOCAError::InvalidValue);
        }
        self.workqs = self.workqs - 1;
        proof {
            assert(self.devices_view() =~= old(self).devices_view());
        }
        Ok(())
    }

    /// The most execution contexts allowed at once.  Contexts are plain
    /// values here and the model places no limit of its own, so the largest
    /// representable count is reported.
    pub fn get_max_num_ctx() -> (r: DOCAResult<u32>)
        ensures
            r == Ok::<u32, DOCAError>(u32::MAX),
    {
        Ok(u32::MAX)
    }

    /// `true` while the context is started.
    pub fn is_started(&self) -> (r: bool)
        ensures
            r == self.spec_started(),
    {
        self.started
    }

    /// The number of work queues attached.
    pub fn workq_count(&self) -> (r: u64)
        ensures
            r == self.spec_workqs(),
    {
        self.workqs
    }

    /// Tears the context down: stops it, then removes every device that was
    /// added at construction, and hands the engine back.  Rejected while a
    /// work queue is still attached.
    pub fn destroy(self, backend: &mut Backend) -> (r: DOCAResult<DMAEngine>)
        requires
            self.wf(),
            old(backend).wf(),
        ensures
            final(backend).wf(),
            final(backend).mem() == old(backend).mem(),
            r is Ok <==> self.spec_workqs() == 0 && (forall|i: int|
                0 <= i < self.devices_view().len() ==> (#[trigger] self.devices_view()[i]) < old(
                    backend,
                ).devs().len() && old(backend).devs()[self.devices_view()[i] as int].bound >= 1),
            r is Ok ==> final(backend).devs() == spec_unbind_from(
                old(backend).devs(),
                self.devices_view(),
                0,
            ),
            r is Err ==> final(backend).devs() == old(backend).devs(),
            r matches Err(e) ==> e == DOCAError::NotPermitted || e == DOCAError::InvalidValue,
    {
        if self.workqs > 0 {
            return Err(DOCAError::NotPermitted);
        }
        let n = self.devices.len();
        let mut i: usize = 0;
        while i < n
            invariant
                backend == old(backend),
                backend.wf(),
                self.wf(),
                self.spec_workqs() == 0,
                n == self.devices@.len(),
                i <= n,
                forall|j: int|
                    0 <= j < i ==> (#[trigger] self.devices_view()[j]) < backend.devs().len()
                        && backend.devs()[self.devices_view()[j] as int].bound >= 1,
            decreases n - i,
        {
            let didx = self.devices[i];
            proof {
                assert(self.devices_view()[i as int] == didx);
            }
            if didx >= backend.device_count() {
                proof {
                    assert(!((#[trigger] self.devices_view()[i as int]) < backend.devs().len()
                        && backend.devs()[self.devices_view()[i as int] as int].bound >= 1));
                }
                return Err(DOCAError::InvalidValue);
            }
            if backend.device_bound(didx) == 0 {
                proof {
                    assert(!((#[trigger] self.devices_view()[i as int]) < backend.devs().len()
                        && backend.devs()[self.devices_view()[i as int] as int].bound >= 1));
                }
                return Err(DOCAError::NotPermitted);
            }
            i = i + 1;
        }
        let ghost odevs = backend.devs();
        let ghost dv = self.devices_view();
        let mut k: usize = 0;
        while k < n
            invariant
                self.wf(),
                backend.wf(),
                backend.mem() == old(backend).mem(),
                n == self.devices@.len(),
                k <= n,
                dv == self.devices_view(),
                odevs == old(backend).devs(),
                backend.devs().len() == odevs.len(),
                forall|j: int|
                    0 <= j < n ==> (#[trigger] dv[j]) < odevs.len() && odevs[dv[j] as int].bound
                        >= 1,
                forall|j: int|
                    k <= j < n ==> (#[trigger] dv[j]) < backend.devs().len() && backend.devs()[
                        dv[j] as int
                    ].bound >= 1,
                spec_unbind_from(odevs, dv, 0) == spec_unbind_from(backend.devs(), dv, k as int),
            decreases n - k,
        {
            let didx = self.devices[k];
            proof {
                assert(dv[k as int] == didx);
            }
            match backend.unbind_slot(didx) {
                Ok(()) => {
                    proof {
                        assert forall|j: int|
                            k + 1 <= j < n implies (#[trigger] dv[j]) < backend.devs().len()
                            && backend.devs()[dv[j] as int].bound >= 1 by {
                            assert(dv[j] != dv[k as int]);
                        }
                    }
                },
                Err(e) => {
                    proof {
                        assert(false);
                    }
                    return Err(e);
                },
            }
            k = k + 1;
        }
        proof {
            assert(spec_unbind_from(backend.devs(), dv, n as int) == backend.devs());
        }
        Ok(self.engine)
    }
}

} // verus!
