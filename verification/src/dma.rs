//! The DMA copy engine and its job descriptor.
//!
//! A job references a source and a destination buffer and is submitted to a
//! work queue; the copy moves the source's active sub-range to the
//! destination's active offset.

use vstd::prelude::*;

use crate::buffer::DOCABuffer;
use crate::error::DOCAError;
use crate::error::DOCAResult;

verus! {

/// A DMA copy engine instance.  An execution context is built from an engine
/// and owns it until the context is destroyed, so the engine outlives the
/// context.
pub struct DMAEngine {}

impl DMAEngine {
    /// A fresh engine instance.
    pub fn new() -> (r: DOCAResult<DMAEngine>)
        ensures
            r is Ok,
    {
        Ok(DMAEngine {})
    }
}

/// A one-shot memory-copy request: a source and a destination buffer.  The
/// queue snapshots the request at submission; after the terminal event is
/// observed the job is spent and the caller frees its buffers.
#[derive(Clone, Copy)]
pub struct DOCADMAJob {
    pub(crate) src_buff: Option<DOCABuffer>,
    pub(crate) dst_buff: Option<DOCABuffer>,
}

impl DOCADMAJob {
    /// The source buffer, once set.
    pub closed spec fn spec_src(self) -> Option<DOCABuffer> {
        self.src_buff
    }

    /// The destination buffer, once set.
    pub closed spec fn spec_dst(self) -> Option<DOCABuffer> {
        self.dst_buff
    }

    /// Splits the job into its source and destination buffers, consuming it:
    /// a job is one-shot.
    pub(crate) fn into_parts(self) -> (r: (Option<DOCABuffer>, Option<DOCABuffer>))
        ensures
            r.0 == self.spec_src(),
            r.1 == self.spec_dst(),
    {
        (self.src_buff, self.dst_buff)
    }

    /// Sets the request's destination buffer, taking ownership of it.
    pub fn set_dst(&mut self, buf: DOCABuffer)
        ensures
            final(self).spec_dst() == Some(buf),
            final(self).spec_src() == old(self).spec_src(),
    {
        self.dst_buff = Some(buf);
    }

    /// Sets the request's source buffer, taking ownership of it.
    pub fn set_src(&mut self, buf: DOCABuffer)
        ensures
            final(self).spec_src() == Some(buf),
            final(self).spec_dst() == old(self).spec_dst(),
    {
        self.src_buff = Some(buf);
    }

    /// Sets the active sub-range of the source buffer: the payload the copy
    /// will move.  Rejected exactly when the sub-range leaves the source's
    /// head range; without a source buffer there is nothing to set.
    pub fn set_data(&mut self, offset: usize, payload: usize) -> (r: DOCAResult<()>)
        requires
            old(self).spec_src() matches Some(b) ==> b.wf(),
        ensures
            final(self).spec_dst() == old(self).spec_dst(),
            old(self).spec_src() is None ==> r is Ok && *final(self) == *old(self),
            old(self).spec_src() matches Some(b) ==> {
                &&& (r is Ok <==> offset + payload <= b.spec_head().payload)
                &&& r is Ok ==> (final(self).spec_src() matches Some(nb) ==> nb.wf()
                    && nb.spec_head() == b.spec_head() && nb.spec_data_off() == offset
                    && nb.spec_data_len() == payload) && final(self).spec_src() is Some
                &&& r is Err ==> *final(self) == *old(self) && r == Err::<(), DOCAError>(
                    DOCAError::InvalidValue,
                )
            },
    {
        match &mut self.src_buff {
            Some(b) => b.set_data(offset, payload),
            None => Ok(()),
        }
    }
}

} // verus!
