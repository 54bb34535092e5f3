//! Context-owned index with a close fence and actual storage reclamation.
use vstd::prelude::*;
use crate::kernel::context::{CancelReason, Deadline, QuiesceReport, QuiesceState};
use crate::kernel::error::{ErrorCategory, ErrorDetail, KernelError, KernelResult};
use crate::spatial::index::{GridReferenceIndex, SpatialIndexBackend, get_in};
use crate::spatial::query::{AabbQuery, SpatialContext, SpatialHit, batch_sizing, batch_hits, hits_sorted, hsort, tag_all};
use crate::spatial::types::{Aabb3, SpatialObjectId};

verus! {

/// The spatial context a kernel context owns. Closing refuses new work;
/// destroying drops the index.
pub struct SpatialResource<B: SpatialIndexBackend> {
    inner: Option<SpatialContext<B>>,
    closing: bool,
    destroyed: bool,
}

impl SpatialResource<GridReferenceIndex> {
    /// A live resource over a fresh reference index.
    pub fn new() -> (r: Self)
        ensures
            r.spec_inner() matches Some(c) && c.spec_objects().len() == 0,
            !r.spec_closing(),
            !r.spec_destroyed(),
    {
        Self::with_context(SpatialContext::new())
    }
}

impl<B: SpatialIndexBackend> SpatialResource<B> {
    pub closed spec fn spec_inner(&self) -> Option<SpatialContext<B>> {
        self.inner
    }

    pub closed spec fn spec_closing(&self) -> bool {
        self.closing
    }

    pub closed spec fn spec_destroyed(&self) -> bool {
        self.destroyed
    }

    /// Why the resource refuses work, checked destroyed first.
    pub open spec fn spec_live_error(&self) -> Option<ErrorCategory> {
        if self.spec_destroyed() {
            Some(ErrorCategory::ContextDestroyed)
        } else if self.spec_closing() {
            Some(ErrorCategory::ContextClosing)
        } else if self.spec_inner() is None {
            Some(ErrorCategory::ContextDestroyed)
        } else {
            None
        }
    }

    /// A live resource over `context`.
    pub fn with_context(context: SpatialContext<B>) -> (r: Self)
        ensures
            r.spec_inner() == Some(context),
            !r.spec_closing(),
            !r.spec_destroyed(),
    {
        SpatialResource { inner: Some(context), closing: false, destroyed: false }
    }

    pub fn name(&self) -> (n: &'static str)
        ensures
            n@ == "spatial"@,
    {
        "spatial"
    }

    fn ensure_live(&self) -> (r: KernelResult<()>)
        ensures
            match self.spec_live_error() {
                Some(c) => r matches Err(e) && e.category == c && e.detail == ErrorDetail::NoDetail,
                None => r is Ok,
            },
    {
        if self.destroyed {
            return Err(KernelError::new(ErrorCategory::ContextDestroyed, ErrorDetail::NoDetail));
        }
        if self.closing {
            return Err(KernelError::new(ErrorCategory::ContextClosing, ErrorDetail::NoDetail));
        }
        if self.inner.is_none() {
            return Err(KernelError::new(ErrorCategory::ContextDestroyed, ErrorDetail::NoDetail));
        }
        Ok(())
    }

    pub fn upsert(&mut self, id: SpatialObjectId, aabb: Aabb3) -> (r: KernelResult<()>)
        ensures
            final(self).spec_closing() == old(self).spec_closing(),
            final(self).spec_destroyed() == old(self).spec_destroyed(),
            match old(self).spec_live_error() {
                Some(c) => r matches Err(e) && e.category == c && final(self).spec_inner() == old(self).spec_inner(),
                None => final(self).spec_inner() matches Some(n) && {
                    let o = old(self).spec_inner()->0;
                    &&& (!aabb.spec_valid() ==> (r matches Err(e) && e.category == ErrorCategory::InvalidArgument))
                    &&& o.spec_index().obeys_port() ==> if !aabb.spec_valid() {
                        n.spec_objects() == o.spec_objects()
                    } else if get_in(o.spec_objects(), id) is None && o.spec_objects().len() >= o.spec_index().spec_room() {
                        r matches Err(e) && e.category == ErrorCategory::CapacityExceeded && n.spec_objects() == o.spec_objects()
                    } else {
                        &&& r is Ok
                        &&& get_in(n.spec_objects(), id) == Some(aabb)
                        &&& forall|other: SpatialObjectId| other != id ==> #[trigger] get_in(n.spec_objects(), other)
                            == get_in(o.spec_objects(), other)
                    }
                },
            },
    {
        self.upsert_shared(id, aabb)
    }

    /// Insert or replace a box while the resource is live.
    pub fn upsert_shared(&mut self, id: SpatialObjectId, aabb: Aabb3) -> (r: KernelResult<()>)
        ensures
            final(self).spec_closing() == old(self).spec_closing(),
            final(self).spec_destroyed() == old(self).spec_destroyed(),
            match old(self).spec_live_error() {
                Some(c) => r matches Err(e) && e.category == c && final(self).spec_inner() == old(self).spec_inner(),
                None => final(self).spec_inner() matches Some(n) && {
                    let o = old(self).spec_inner()->0;
                    &&& (!aabb.spec_valid() ==> (r matches Err(e) && e.category == ErrorCategory::InvalidArgument))
                    &&& o.spec_index().obeys_port() ==> if !aabb.spec_valid() {
                        n.spec_objects() == o.spec_objects()
                    } else if get_in(o.spec_objects(), id) is None && o.spec_objects().len() >= o.spec_index().spec_room() {
                        r matches Err(e) && e.category == ErrorCategory::CapacityExceeded && n.spec_objects() == o.spec_objects()
                    } else {
                        &&& r is Ok
                        &&& get_in(n.spec_objects(), id) == Some(aabb)
                        &&& forall|other: SpatialObjectId| other != id ==> #[trigger] get_in(n.spec_objects(), other)
                            == get_in(o.spec_objects(), other)
                    }
                },
            },
    {
        self.ensure_live()?;
        match &mut self.inner {
            Some(ctx) => ctx.upsert(id, aabb),
            None => Err(KernelError::new(ErrorCategory::ContextDestroyed, ErrorDetail::NoDetail)),
        }
    }

    pub fn query_aabb_batch(&self, queries: &[AabbQuery], out: &mut [SpatialHit]) -> (r: KernelResult<usize>)
        ensures
            r is Err ==> final(out)@ == old(out)@,
            r matches Ok(n) ==> {
                &&& n <= old(out)@.len()
                &&& final(out)@.len() == old(out)@.len()
                &&& final(out)@.subrange(n as int, old(out)@.len() as int) == old(out)@.subrange(n as int, old(out)@.len() as int)
                &&& hits_sorted(final(out)@.subrange(0, n as int))
                &&& forall|k: int| 0 <= k < n ==> (#[trigger] final(out)@[k]).query_ordinal < queries@.len()
                &&& exists|answers: Seq<Seq<SpatialObjectId>>| #![trigger tag_all(answers, answers.len() as int)]
                    answers.len() == queries@.len() && final(out)@.subrange(0, n as int) == hsort(
                    tag_all(answers, answers.len() as int))
                &&& forall|j: int| 0 <= j < queries@.len() ==> (#[trigger] queries@[j]).aabb.spec_valid()
            },
            match self.spec_live_error() {
                Some(c) => r matches Err(e) && e.category == c && final(out)@ == old(out)@,
                None => {
                    let ctx = self.spec_inner()->0;
                    if queries@.len() > ctx.spec_limits().max_queries || queries@.len() > u32::MAX {
                        r matches Err(e) && e.category == ErrorCategory::CapacityExceeded && final(out)@ == old(out)@
                    } else {
                        &&& queries@.len() == 0 ==> r == Ok::<usize, KernelError>(0)
                        &&& queries@.len() > 0 && !queries@[0].aabb.spec_valid() ==> (r matches Err(e)
                            && e.category == ErrorCategory::InvalidArgument)
                        &&& ctx.spec_index().obeys_port() ==> match batch_sizing(ctx.spec_objects(), queries@, queries@.len() as int, ctx.spec_limits().max_hits as nat) {
                            Err(c) => r matches Err(e) && e.category == c && final(out)@ == old(out)@,
                            Ok(total) => if total > old(out)@.len() {
                                r matches Err(e) && e.category == ErrorCategory::BufferTooSmall && final(out)@ == old(out)@
                            } else {
                                &&& r == Ok::<usize, KernelError>(total as usize)
                                &&& final(out)@ == batch_hits(ctx.spec_objects(), queries@, queries@.len() as int)
                                    + old(out)@.subrange(total as int, old(out)@.len() as int)
                            },
                        }
                    }
                },
            },
    {
        self.ensure_live()?;
        match &self.inner {
            Some(ctx) => ctx.query_aabb_batch(queries, out),
            None => Err(KernelError::new(ErrorCategory::ContextDestroyed, ErrorDetail::NoDetail)),
        }
    }

    /// Refuse new work from now on.
    pub fn cancel_requested(&mut self, reason: CancelReason)
        ensures
            final(self).spec_closing(),
            final(self).spec_destroyed() == old(self).spec_destroyed(),
            final(self).spec_inner() == old(self).spec_inner(),
    {
        let _ = reason;
        self.closing = true;
    }

    /// Stop admitting work; with a single owner nothing can be in flight, so the
    /// resource is quiesced at once.
    pub fn quiesce(&mut self, deadline: Deadline) -> (r: KernelResult<QuiesceReport>)
        ensures
            final(self).spec_closing(),
            final(self).spec_destroyed() == old(self).spec_destroyed(),
            final(self).spec_inner() == old(self).spec_inner(),
            r == Ok::<QuiesceReport, KernelError>(QuiesceReport { state: QuiesceState::Quiesced }),
    {
        let _ = deadline;
        self.closing = true;
        Ok(QuiesceReport { state: QuiesceState::Quiesced })
    }

    /// Drop the index and refuse everything afterwards.
    pub fn destroy(&mut self) -> (r: KernelResult<()>)
        ensures
            r is Ok,
            final(self).spec_closing(),
            final(self).spec_destroyed(),
            final(self).spec_inner() is None,
    {
        self.closing = true;
        self.inner = None;
        self.destroyed = true;
        Ok(())
    }
}

} // verus!
