//! Bounded standalone completion buffer. Ids must be published monotonically.
//! Active leases plus a bounded recent-release window use O(capacity) space.
//! Older releases answer `InvalidHandle`; the high-water mark prevents republish.
use vstd::prelude::*;
use crate::job::id::JobId;
use crate::job::state::JobState;
use crate::kernel::error::{ErrorCategory, ErrorDetail, KernelError, KernelResult, error_of};

verus! {

#[derive(Clone, Copy, Debug, PartialEq, Eq, Structural)]
pub struct JobCompletion {
    pub id: JobId,
    pub state: JobState,
}

/// `v` is at or below the high-water mark `hw`.
pub open spec fn below_high(hw: Option<u64>, v: u64) -> bool {
    match hw {
        Some(h) => v <= h,
        None => false,
    }
}

/// Position of the lease for `id`, if any (ids are unique).
pub open spec fn lease_pos(leases: Seq<(JobId, bool)>, id: JobId) -> Option<int> {
    if exists|j: int| 0 <= j < leases.len() && leases[j].0 == id {
        Some(choose|j: int| 0 <= j < leases.len() && leases[j].0 == id)
    } else {
        None
    }
}

pub open spec fn unique_leases(leases: Seq<(JobId, bool)>) -> bool {
    forall|i: int, j: int| 0 <= i < leases.len() && 0 <= j < leases.len() && i != j ==> leases[i].0 != leases[j].0
}

/// Mark the leases of the ids in `drained` as drained.
pub open spec fn mark_drained(leases: Seq<(JobId, bool)>, drained: Seq<JobCompletion>) -> Seq<(JobId, bool)> {
    leases.map_values(|l: (JobId, bool)| if exists|k: int| 0 <= k < drained.len() && drained[k].id == l.0 {
        (l.0, true)
    } else {
        l
    })
}

pub struct CompletionBatch {
    capacity: usize,
    queue: Vec<JobCompletion>,
    leases: Vec<(JobId, bool)>,
    released: Vec<JobId>,
    high_water: Option<u64>,
}

impl CompletionBatch {
    pub closed spec fn spec_capacity(&self) -> nat {
        self.capacity as nat
    }

    /// Published completions not yet drained, oldest first.
    pub closed spec fn spec_queue(&self) -> Seq<JobCompletion> {
        self.queue@
    }

    /// Live leases: id and whether it was drained.
    pub closed spec fn spec_leases(&self) -> Seq<(JobId, bool)> {
        self.leases@
    }

    /// Recently released ids, oldest first.
    pub closed spec fn spec_released(&self) -> Seq<JobId> {
        self.released@
    }

    pub closed spec fn spec_high_water(&self) -> Option<u64> {
        self.high_water
    }

    pub closed spec fn wf(&self) -> bool {
        &&& self.leases@.len() <= self.capacity
        &&& self.released@.len() <= self.capacity
        &&& unique_leases(self.leases@)
        &&& forall|i: int| 0 <= i < self.leases@.len() ==> below_high(self.high_water, (#[trigger] self.leases@[i]).0.0)
        &&& forall|i: int| 0 <= i < self.queue@.len() ==> below_high(self.high_water, (#[trigger] self.queue@[i]).id.0)
    }

    pub fn with_capacity(capacity: usize) -> (b: Self)
        ensures
            b.wf(),
            b.spec_capacity() == capacity,
            b.spec_queue().len() == 0,
            b.spec_leases().len() == 0,
            b.spec_released().len() == 0,
            b.spec_high_water() is None,
    {
        CompletionBatch { capacity, queue: Vec::new(), leases: Vec::new(), released: Vec::new(), high_water: None }
    }

    /// Why publishing `c` would be refused.
    pub open spec fn spec_publish_error(&self, c: JobCompletion) -> Option<ErrorCategory> {
        if !c.state.spec_is_terminal() || (self.spec_high_water() matches Some(h) && c.id.0 <= h) {
            Some(ErrorCategory::InvalidArgument)
        } else if self.spec_leases().len() >= self.spec_capacity() {
            Some(ErrorCategory::CapacityExceeded)
        } else {
            None
        }
    }

    /// Queue a terminal completion whose id is above every id published so far.
    pub fn publish(&mut self, completion: JobCompletion) -> (r: KernelResult<()>)
        requires
            old(self).wf(),
        ensures
            final(self).wf(),
            final(self).spec_capacity() == old(self).spec_capacity(),
            final(self).spec_released() == old(self).spec_released(),
            match old(self).spec_publish_error(completion) {
                Some(c) => r matches Err(e) && e.category == c && e.detail == ErrorDetail::NoDetail
                    && final(self).spec_queue() == old(self).spec_queue()
                    && final(self).spec_leases() == old(self).spec_leases()
                    && final(self).spec_high_water() == old(self).spec_high_water(),
                None => {
                    &&& r is Ok
                    &&& final(self).spec_queue() == old(self).spec_queue().push(completion)
                    &&& final(self).spec_leases() == old(self).spec_leases().push((completion.id, false))
                    &&& final(self).spec_high_water() == Some(completion.id.0)
                },
            },
    {
        let stale = match self.high_water {
            Some(high) => completion.id.raw() <= high,
            None => false,
        };
        if !completion.state.is_terminal() || stale {
            return Err(error_of(ErrorCategory::InvalidArgument));
        }
        if self.leases.len() >= self.capacity {
            return Err(error_of(ErrorCategory::CapacityExceeded));
        }
        self.queue.push(completion);
        self.leases.push((completion.id, false));
        self.high_water = Some(completion.id.raw());
        proof {
            assert forall|i: int, j: int| 0 <= i < self.leases@.len() && 0 <= j < self.leases@.len() && i != j
                implies self.leases@[i].0 != self.leases@[j].0 by {
                if i < old(self).leases@.len() && j < old(self).leases@.len() {
                } else if i < old(self).leases@.len() {
                    assert(old(self).leases@[i].0.0 <= old(self).high_water->0);
                } else {
                    assert(old(self).leases@[j].0.0 <= old(self).high_water->0);
                }
            }
        }
        Ok(())
    }

    /// Copy the oldest queued completions into `out` and mark their leases drained.
    pub fn drain(&mut self, out: &mut [JobCompletion]) -> (r: KernelResult<usize>)
        requires
            old(self).wf(),
        ensures
            final(self).wf(),
            r matches Ok(count) && {
                &&& count == if old(out)@.len() < old(self).spec_queue().len() {
                    old(out)@.len()
                } else {
                    old(self).spec_queue().len()
                }
                &&& final(out)@ == old(self).spec_queue().subrange(0, count as int) + old(out)@.subrange(
                    count as int,
                    old(out)@.len() as int,
                )
                &&& final(self).spec_queue() == old(self).spec_queue().subrange(count as int, old(self).spec_queue().len() as int)
                &&& final(self).spec_leases() == mark_drained(old(self).spec_leases(),
                    old(self).spec_queue().subrange(0, count as int))
            },
            final(self).spec_capacity() == old(self).spec_capacity(),
            final(self).spec_released() == old(self).spec_released(),
            final(self).spec_high_water() == old(self).spec_high_water(),
    {
        let count = if out.len() < self.queue.len() { out.len() } else { self.queue.len() };
        let mut k: usize = 0;
        while k < count
            invariant
                count <= old(out)@.len(),
                count <= old(self).queue@.len(),
                k <= count,
                out@.len() == old(out)@.len(),
                self.capacity == old(self).capacity,
                self.released@ == old(self).released@,
                self.high_water == old(self).high_water,
                self.queue@ == old(self).queue@,
                forall|j: int| 0 <= j < k ==> out@[j] == old(self).queue@[j],
                forall|j: int| k <= j < out@.len() ==> out@[j] == old(out)@[j],
                self.leases@ == mark_drained(old(self).leases@, old(self).queue@.subrange(0, k as int)),
                self.leases@.len() == old(self).leases@.len(),
                unique_leases(old(self).leases@),
            decreases count - k,
        {
            let c = self.queue[k];
            out[k] = c;
            let mut j: usize = 0;
            let ghost before = self.leases@;
            while j < self.leases.len()
                invariant
                    j <= self.leases@.len(),
                    self.capacity == old(self).capacity,
                    self.released@ == old(self).released@,
                    self.high_water == old(self).high_water,
                    self.queue@ == old(self).queue@,
                    self.leases@.len() == before.len(),
                    forall|t: int| 0 <= t < j ==> self.leases@[t] == if before[t].0 == c.id { (before[t].0, true) } else { before[t] },
                    forall|t: int| j <= t < self.leases@.len() ==> self.leases@[t] == before[t],
                decreases self.leases@.len() - j,
            {
                let l = self.leases[j];
                if l.0 == c.id {
                    self.leases.set(j, (l.0, true));
                }
                j = j + 1;
            }
            proof {
                let d0 = old(self).queue@.subrange(0, k as int);
                let d1 = old(self).queue@.subrange(0, k + 1);
                assert(d1[k as int] == c);
                assert forall|t: int| 0 <= t < self.leases@.len() implies #[trigger] self.leases@[t]
                    == mark_drained(old(self).leases@, d1)[t] by {
                    let l = old(self).leases@[t];
                    let in0 = exists|q: int| 0 <= q < d0.len() && d0[q].id == l.0;
                    let in1 = exists|q: int| 0 <= q < d1.len() && d1[q].id == l.0;
                    if in0 {
                        let q = choose|q: int| 0 <= q < d0.len() && d0[q].id == l.0;
                        assert(d1[q] == d0[q]);
                    }
                    if in1 && !in0 {
                        let q = choose|q: int| 0 <= q < d1.len() && d1[q].id == l.0;
                        if q < k {
                            assert(d0[q] == d1[q]);
                        }
                    }
                }
                assert(self.leases@ =~= mark_drained(old(self).leases@, d1));
            }
            k = k + 1;
        }
        let mut rest: Vec<JobCompletion> = Vec::new();
        let mut m: usize = count;
        let ghost snap = *self;
        while m < self.queue.len()
            invariant
                self.leases@ == snap.leases@,
                self.queue@ == snap.queue@,
                self.released@ == snap.released@,
                self.capacity == snap.capacity,
                self.high_water == snap.high_water,
                count <= m <= self.queue@.len(),
                rest@ == self.queue@.subrange(count as int, m as int),
            decreases self.queue@.len() - m,
        {
            rest.push(self.queue[m]);
            m = m + 1;
        }
        self.queue = rest;
        proof {
            assert(self.leases@.len() <= self.capacity);
            assert(self.released@.len() <= self.capacity);
            assert(out@ =~= old(self).queue@.subrange(0, count as int) + old(out)@.subrange(count as int, old(out)@.len() as int));
            assert forall|i: int, j: int| 0 <= i < self.leases@.len() && 0 <= j < self.leases@.len() && i != j
                implies self.leases@[i].0 != self.leases@[j].0 by {
                assert(old(self).leases@[i].0 != old(self).leases@[j].0);
            }
            assert forall|i: int| 0 <= i < self.leases@.len() implies below_high(self.high_water, (#[trigger] self.leases@[i]).0.0) by {
                assert(old(self).leases@[i].0 == self.leases@[i].0);
                assert(below_high(old(self).high_water, old(self).leases@[i].0.0));
            }
            assert forall|i: int| 0 <= i < self.queue@.len() implies below_high(self.high_water, (#[trigger] self.queue@[i]).id.0) by {
                assert(self.queue@[i] == old(self).queue@[i + count]);
            }
        }
        Ok(count)
    }

    /// Why releasing `id` would be refused.
    pub open spec fn spec_release_error(&self, id: JobId) -> Option<ErrorCategory> {
        match lease_pos(self.spec_leases(), id) {
            Some(j) => if self.spec_leases()[j].1 {
                None
            } else {
                Some(ErrorCategory::InvalidArgument)
            },
            None => if self.spec_released().contains(id) {
                Some(ErrorCategory::AlreadyReleased)
            } else {
                Some(ErrorCategory::InvalidHandle)
            },
        }
    }

    /// End the lease of a drained completion; the id joins the bounded release window.
    pub fn release(&mut self, id: JobId) -> (r: KernelResult<()>)
        requires
            old(self).wf(),
        ensures
            final(self).wf(),
            final(self).spec_capacity() == old(self).spec_capacity(),
            final(self).spec_queue() == old(self).spec_queue(),
            final(self).spec_high_water() == old(self).spec_high_water(),
            match old(self).spec_release_error(id) {
                Some(c) => r matches Err(e) && e.category == c && e.detail == ErrorDetail::NoDetail
                    && final(self).spec_leases() == old(self).spec_leases()
                    && final(self).spec_released() == old(self).spec_released(),
                None => {
                    let j = lease_pos(old(self).spec_leases(), id)->0;
                    &&& r is Ok
                    &&& final(self).spec_leases() == old(self).spec_leases().remove(j)
                    &&& final(self).spec_released() == if old(self).spec_released().len() == old(self).spec_capacity() {
                        old(self).spec_released().drop_first().push(id)
                    } else {
                        old(self).spec_released().push(id)
                    }
                    &&& final(self).spec_released().contains(id)
                },
            },
    {
        let mut pos: usize = 0;
        let mut found = false;
        while pos < self.leases.len() && !found
            invariant
                pos <= self.leases@.len(),
                found ==> pos < self.leases@.len() && self.leases@[pos as int].0 == id,
                forall|t: int| 0 <= t < pos ==> self.leases@[t].0 != id,
            decreases self.leases@.len() - pos + if found { 0int } else { 1int },
        {
            if self.leases[pos].0 == id {
                found = true;
            } else {
                pos = pos + 1;
            }
        }
        if pos == self.leases.len() {
            proof {
                assert(lease_pos(self.leases@, id) is None);
            }
            let mut seen = false;
            let mut t: usize = 0;
            while t < self.released.len()
                invariant
                    t <= self.released@.len(),
                    seen == exists|q: int| 0 <= q < t && self.released@[q] == id,
                decreases self.released@.len() - t,
            {
                if self.released[t] == id {
                    seen = true;
                }
                t = t + 1;
            }
            proof {
                if seen {
                    let q = choose|q: int| 0 <= q < t && self.released@[q] == id;
                    assert(self.released@.contains(id));
                } else {
                    assert(!self.released@.contains(id));
                }
            }
            if seen {
                return Err(error_of(ErrorCategory::AlreadyReleased));
            }
            return Err(error_of(ErrorCategory::InvalidHandle));
        }
        proof {
            assert(self.leases@[pos as int].0 == id);
            assert(lease_pos(self.leases@, id) == Some(pos as int));
        }
        if !self.leases[pos].1 {
            return Err(error_of(ErrorCategory::InvalidArgument));
        }
        self.leases.remove(pos);
        if self.released.len() == self.capacity {
            self.released.remove(0);
        }
        self.released.push(id);
        proof {
            assert(self.released@[self.released@.len() - 1] == id);
            assert forall|i: int, j: int| 0 <= i < self.leases@.len() && 0 <= j < self.leases@.len() && i != j
                implies self.leases@[i].0 != self.leases@[j].0 by {
                let i0 = if i < pos { i } else { i + 1 };
                let j0 = if j < pos { j } else { j + 1 };
                assert(old(self).leases@[i0].0 != old(self).leases@[j0].0);
            }
            assert forall|i: int| 0 <= i < self.leases@.len() implies below_high(self.high_water, (#[trigger] self.leases@[i]).0.0) by {
                let i0 = if i < pos { i } else { i + 1 };
                assert(self.leases@[i] == old(self).leases@[i0]);
            }
        }
        Ok(())
    }

    /// Leases plus remembered releases; never more than twice the capacity.
    pub fn retained_count(&self) -> (n: usize)
        requires
            self.wf(),
        ensures
            self.spec_leases().len() + self.spec_released().len() <= usize::MAX ==> n == self.spec_leases().len()
                + self.spec_released().len(),
            self.spec_leases().len() + self.spec_released().len() > usize::MAX ==> n == usize::MAX,
            n <= 2 * self.spec_capacity(),
    {
        self.leases.len().saturating_add(self.released.len())
    }

    /// Neither the live leases nor the remembered releases outgrow the capacity.
    pub proof fn lemma_bounded(&self)
        requires
            self.wf(),
        ensures
            self.spec_leases().len() <= self.spec_capacity(),
            self.spec_released().len() <= self.spec_capacity(),
    {
    }
}

} // verus!
