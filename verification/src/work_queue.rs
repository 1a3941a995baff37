//! The work queue: a per-thread submission and completion channel bound to
//! one execution context, and the completion protocol of the copy engine.
//!
//! `submit` accepts a job while fewer jobs are outstanding than the queue's
//! fixed depth.  `poll_completion` performs one non-blocking check: it
//! returns the terminal event of the oldest outstanding job, or the `Again`
//! signal when nothing has completed yet — `Again` is a retry signal, never
//! a final failure, and callers loop on it.

use vstd::prelude::*;

use crate::backend::Backend;
use crate::backend::HostRegionView;
use crate::backend::mem_bytes;
use crate::backend::mem_has_range;
use crate::backend::mem_store;
use crate::buffer::DOCABuffer;
use crate::context::DOCAContext;
use crate::dma::DOCADMAJob;
use crate::error::DOCAError;
use crate::error::DOCAResult;

verus! {

/// A completion record: the engine-defined result code of one finished job.
#[derive(Clone, Copy)]
pub struct DOCAEvent {
    result: DOCAError,
}

impl DOCAEvent {
    /// The result code carried by the event.
    pub closed spec fn spec_result(self) -> DOCAError {
        self.result
    }

    /// A fresh event, carrying the success code.
    pub fn new() -> (r: DOCAEvent)
        ensures
            r.spec_result() == DOCAError::Success,
    {
        DOCAEvent { result: DOCAError::Success }
    }

    /// The result code of the completed job.
    pub fn result(&self) -> (r: DOCAError)
        ensures
            r == self.spec_result(),
    {
        self.result
    }
}

/// The address of a buffer's active sub-range.
pub open spec fn spec_buf_addr(b: DOCABuffer) -> int {
    b.spec_head().inner + b.spec_data_off()
}

/// `true` when a job can execute against the given memory: both buffers are
/// set and well formed, the source's active payload fits the destination's
/// remaining head range, and both active ranges lie in allocated memory.
pub open spec fn spec_job_ready(job: DOCADMAJob, mv: Seq<HostRegionView>) -> bool {
    &&& job.spec_src() is Some
    &&& job.spec_dst() is Some
    &&& job.spec_src()->0.wf()
    &&& job.spec_dst()->0.wf()
    &&& job.spec_dst()->0.spec_data_off() + job.spec_src()->0.spec_data_len()
        <= job.spec_dst()->0.spec_head().payload
    &&& mem_has_range(
        mv,
        spec_buf_addr(job.spec_src()->0),
        job.spec_src()->0.spec_data_len() as int,
    )
    &&& mem_has_range(
        mv,
        spec_buf_addr(job.spec_dst()->0),
        job.spec_src()->0.spec_data_len() as int,
    )
}

/// The memory after a ready job's copy: the source's active bytes stored at
/// the destination's active address.
pub open spec fn spec_job_copy(job: DOCADMAJob, mv: Seq<HostRegionView>) -> Seq<HostRegionView> {
    mem_store(
        mv,
        spec_buf_addr(job.spec_dst()->0),
        mem_bytes(mv, spec_buf_addr(job.spec_src()->0), job.spec_src()->0.spec_data_len() as int),
    )
}

/// A work queue of fixed depth, attached to one execution context.
pub struct DOCAWorkQueue {
    depth: u32,
    pending: Vec<DOCADMAJob>,
}

impl DOCAWorkQueue {
    /// The fixed maximum number of outstanding jobs.
    pub closed spec fn spec_depth(self) -> u32 {
        self.depth
    }

    /// The outstanding jobs: submitted and not yet polled to completion,
    /// oldest first.
    pub closed spec fn spec_pending(self) -> Seq<DOCADMAJob> {
        self.pending@
    }

    /// A queue of the given depth, attached to the context.  Rejected for a
    /// zero depth and on a context that is not started; on failure the queue
    /// does not exist and nothing stays attached.
    pub fn new(depth: u32, ctx: &mut DOCAContext) -> (r: DOCAResult<DOCAWorkQueue>)
        ensures
            final(ctx).devices_view() == old(ctx).devices_view(),
            final(ctx).spec_started() == old(ctx).spec_started(),
            old(ctx).wf() ==> final(ctx).wf(),
            r is Ok <==> depth >= 1 && old(ctx).spec_started() && old(ctx).spec_workqs()
                < u64::MAX,
            r matches Ok(q) ==> {
                &&& q.spec_depth() == depth
                &&& q.spec_pending().len() == 0
                &&& final(ctx).spec_workqs() == old(ctx).spec_workqs() + 1
            },
            r is Err ==> *final(ctx) == *old(ctx),
            r matches Err(e) ==> e == DOCAError::InvalidValue || e == DOCAError::NotPermitted || e
                == DOCAError::NoMemory,
    {
        if depth == 0 {
            return Err(DOCAError::InvalidValue);
        }
        match ctx.note_workq_add() {
            Ok(()) => Ok(DOCAWorkQueue { depth, pending: Vec::new() }),
            Err(e) => Err(e),
        }
    }

    /// Builds a copy job from a source and a destination buffer, taking
    /// ownership of both until the job completes.
    pub fn create_dma_job(&self, src_buf: DOCABuffer, dst_buf: DOCABuffer) -> (r: DOCADMAJob)
        ensures
            r.spec_src() == Some(src_buf),
            r.spec_dst() == Some(dst_buf),
    {
        let mut res = DOCADMAJob { src_buff: None, dst_buff: None };
        res.set_src(src_buf);
        res.set_dst(dst_buf);
        res
    }

    /// Submits a job: the queue records the request.  Accepted exactly
    /// while fewer jobs are outstanding than the queue's depth.
    pub fn submit(&mut self, job: &DOCADMAJob) -> (r: DOCAResult<()>)
        ensures
            final(self).spec_depth() == old(self).spec_depth(),
            r is Ok <==> old(self).spec_pending().len() < old(self).spec_depth(),
            r is Ok ==> final(self).spec_pending() == old(self).spec_pending().push(*job),
            r is Err ==> *final(self) == *old(self) && r == Err::<(), DOCAError>(
                DOCAError::NoMemory,
            ),
    {
        if self.pending.len() >= self.depth as usize {
            return Err(DOCAError::NoMemory);
        }
        self.pending.push(*job);
        Ok(())
    }

    /// The number of outstanding jobs.
    pub fn outstanding(&self) -> (r: usize)
        ensures
            r == self.spec_pending().len(),
    {
        self.pending.len()
    }

    /// One non-blocking completion check.  With no job outstanding it
    /// reports `Again`: nothing has completed yet, retry.  Otherwise the
    /// oldest job runs to its terminal event: a ready job's payload is
    /// copied and the event carries the success code; a job that cannot
    /// execute leaves the memory unchanged and the event carries the
    /// invalid-value code.
    pub fn poll_completion(&mut self, backend: &mut Backend) -> (r: DOCAResult<DOCAEvent>)
        requires
            old(backend).wf(),
        ensures
            final(backend).wf(),
            final(backend).devs() == old(backend).devs(),
            final(self).spec_depth() == old(self).spec_depth(),
            r is Err <==> old(self).spec_pending().len() == 0,
            r is Err ==> *final(self) == *old(self) && final(backend).mem() == old(backend).mem()
                && r == Err::<DOCAEvent, DOCAError>(DOCAError::Again),
            r is Ok ==> final(self).spec_pending() == old(self).spec_pending().drop_first(),
            r matches Ok(ev) ==> {
                &&& spec_job_ready(old(self).spec_pending()[0], old(backend).mem())
                    ==> ev.spec_result() == DOCAError::Success && final(backend).mem()
                    == spec_job_copy(old(self).spec_pending()[0], old(backend).mem())
                &&& !spec_job_ready(old(self).spec_pending()[0], old(backend).mem())
                    ==> ev.spec_result() == DOCAError::InvalidValue && final(backend).mem() == old(
                    backend,
                ).mem()
            },
    {
        if self.pending.len() == 0 {
            return Err(DOCAError::Again);
        }
        let ghost job0 = self.pending@[0];
        let job = self.pending.remove(0);
        proof {
            assert(self.pending@ =~= old(self).spec_pending().drop_first());
        }
        let (src_buff, dst_buff) = job.into_parts();
        let src = match src_buff {
            Some(b) => b,
            None => {
                return Ok(DOCAEvent { result: DOCAError::InvalidValue });
            },
        };
        let dst = match dst_buff {
            Some(b) => b,
            None => {
                return Ok(DOCAEvent { result: DOCAError::InvalidValue });
            },
        };
        proof {
            assert(job0.spec_src() == Some(src) && job0.spec_dst() == Some(dst));
        }
        if !src.is_wf() || !dst.is_wf() {
            return Ok(DOCAEvent { result: DOCAError::InvalidValue });
        }
        let len = src.data_len();
        if dst.data_off() > dst.head().get_payload() || len > dst.head().get_payload()
            - dst.data_off() {
            return Ok(DOCAEvent { result: DOCAError::InvalidValue });
        }
        let src_addr: u64 = src.head().get_inner() + (src.data_off() as u64);
        let dst_addr: u64 = dst.head().get_inner() + (dst.data_off() as u64);
        if !backend.covers(src_addr, len) || !backend.covers(dst_addr, len) {
            return Ok(DOCAEvent { result: DOCAError::InvalidValue });
        }
        proof {
            assert(spec_job_ready(job0, backend.mem()));
        }
        let bytes = match backend.read_bytes(src_addr, len) {
            Ok(v) => v,
            Err(e) => {
                proof {
                    assert(false);
                }
                return Err(e);
            },
        };
        match backend.write_bytes(dst_addr, &bytes) {
            Ok(()) => {},
            Err(e) => {
                proof {
                    assert(false);
                }
                return Err(e);
            },
        }
        Ok(DOCAEvent { result: DOCAError::Success })
    }

    /// The fixed maximum number of outstanding jobs.
    pub fn depth(&self) -> (r: u32)
        ensures
            r == self.spec_depth(),
    {
        self.depth
    }

    /// Detaches the queue from its context and releases it.  Rejected while
    /// jobs are still outstanding: every submitted job must be polled to
    /// completion first.
    pub fn destroy(self, ctx: &mut DOCAContext) -> (r: DOCAResult<()>)
        ensures
            final(ctx).devices_view() == old(ctx).devices_view(),
            final(ctx).spec_started() == old(ctx).spec_started(),
            old(ctx).wf() ==> final(ctx).wf(),
            r is Ok <==> self.spec_pending().len() == 0 && old(ctx).spec_workqs() >= 1,
            r is Ok ==> final(ctx).spec_workqs() == old(ctx).spec_workqs() - 1,
            r is Err ==> *final(ctx) == *old(ctx),
            r matches Err(e) ==> e == DOCAError::NotPermitted || e == DOCAError::InvalidValue,
    {
        if self.pending.len() > 0 {
            return Err(DOCAError::NotPermitted);
        }
        ctx.note_workq_rm()
    }
}

} // verus!
