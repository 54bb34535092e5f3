//! Capacity-first batch queries over a pluggable spatial backend.
use vstd::prelude::*;
use crate::kernel::error::{ErrorCategory, ErrorDetail, KernelError, KernelResult};
use crate::spatial::index::{GridReferenceIndex, SpatialIndexBackend, get_in, overlap_ids, lemma_overlap_ids_sorted, lemma_overlap_ids_members, wf_entries};
use crate::spatial::types::{Aabb3, SpatialObjectId};

verus! {

#[derive(Clone, Copy, Debug, PartialEq, Eq, PartialOrd, Ord, Hash, Structural)]
pub struct SpatialHit {
    pub query_ordinal: u32,
    pub object_id: SpatialObjectId,
}

#[derive(Clone, Copy, Debug, PartialEq, Eq, Structural)]
pub struct AabbQuery {
    pub aabb: Aabb3,
}

#[derive(Clone, Copy, Debug, PartialEq, Eq, Structural)]
pub struct SpatialQueryLimits {
    pub max_queries: usize,
    pub max_hits: usize,
}

impl Default for SpatialQueryLimits {
    fn default() -> (l: Self)
        ensures
            l.max_queries == 4096,
            l.max_hits == 262144,
    {
        SpatialQueryLimits { max_queries: 4096, max_hits: 262144 }
    }
}

/// Hits of query `ordinal` for the ids `ids`, in order.
pub open spec fn hits_of(ordinal: int, ids: Seq<SpatialObjectId>) -> Seq<SpatialHit> {
    ids.map_values(|id: SpatialObjectId| SpatialHit { query_ordinal: ordinal as u32, object_id: id })
}

/// All hits of the first `n` queries, query by query.
pub open spec fn batch_hits(objs: Seq<(SpatialObjectId, Aabb3)>, queries: Seq<AabbQuery>, n: int) -> Seq<SpatialHit>
    decreases n,
{
    if n <= 0 {
        Seq::empty()
    } else {
        batch_hits(objs, queries, n - 1) + hits_of(n - 1, overlap_ids(objs, queries[n - 1].aabb))
    }
}

/// Sizing pass over the first `n` queries: the running hit total, or the first refusal.
pub open spec fn batch_sizing(objs: Seq<(SpatialObjectId, Aabb3)>, queries: Seq<AabbQuery>, n: int, max_hits: nat) -> Result<nat, ErrorCategory>
    decreases n,
{
    if n <= 0 {
        Ok(0)
    } else {
        match batch_sizing(objs, queries, n - 1, max_hits) {
            Err(e) => Err(e),
            Ok(total) => if !queries[n - 1].aabb.spec_valid() {
                Err(ErrorCategory::InvalidArgument)
            } else {
                let t = total + overlap_ids(objs, queries[n - 1].aabb).len();
                if t > max_hits {
                    Err(ErrorCategory::CapacityExceeded)
                } else {
                    Ok(t)
                }
            },
        }
    }
}

pub proof fn lemma_batch_len(objs: Seq<(SpatialObjectId, Aabb3)>, queries: Seq<AabbQuery>, n: int, max_hits: nat)
    requires
        0 <= n <= queries.len(),
        batch_sizing(objs, queries, n, max_hits) is Ok,
    ensures
        batch_hits(objs, queries, n).len() == batch_sizing(objs, queries, n, max_hits)->Ok_0,
    decreases n,
{
    if n > 0 {
        lemma_batch_len(objs, queries, n - 1, max_hits);
    }
}

pub open spec fn hit_lt(a: SpatialHit, b: SpatialHit) -> bool {
    a.query_ordinal < b.query_ordinal || (a.query_ordinal == b.query_ordinal && a.object_id.0 < b.object_id.0)
}

/// Batch hits come out sorted by (query ordinal, object id).
pub proof fn lemma_batch_sorted(objs: Seq<(SpatialObjectId, Aabb3)>, queries: Seq<AabbQuery>, n: int)
    requires
        wf_entries(objs),
        0 <= n <= queries.len(),
        queries.len() <= u32::MAX + 1,
    ensures
        forall|a: int, b: int| 0 <= a < b < batch_hits(objs, queries, n).len() ==> hit_lt(
            #[trigger] batch_hits(objs, queries, n)[a], #[trigger] batch_hits(objs, queries, n)[b]),
        forall|a: int| 0 <= a < batch_hits(objs, queries, n).len() ==> (#[trigger] batch_hits(objs, queries, n)[a]).query_ordinal < n,
    decreases n,
{
    if n > 0 {
        lemma_batch_sorted(objs, queries, n - 1);
        let prev = batch_hits(objs, queries, n - 1);
        let ids = overlap_ids(objs, queries[n - 1].aabb);
        let last = hits_of(n - 1, ids);
        lemma_overlap_ids_sorted(objs, queries[n - 1].aabb);
        let all = batch_hits(objs, queries, n);
        assert(all == prev + last);
        assert forall|a: int| 0 <= a < all.len() implies (#[trigger] all[a]).query_ordinal < n by {
            if a >= prev.len() {
                assert(all[a] == last[a - prev.len()]);
            }
        }
        assert forall|a: int, b: int| 0 <= a < b < all.len() implies hit_lt(#[trigger] all[a], #[trigger] all[b]) by {
            if a < prev.len() && b < prev.len() {
                assert(all[a] == prev[a] && all[b] == prev[b]);
            } else if a < prev.len() {
                assert(all[a] == prev[a]);
                assert(all[b] == last[b - prev.len()]);
                assert(prev[a].query_ordinal < n - 1);
            } else {
                assert(all[a] == last[a - prev.len()]);
                assert(all[b] == last[b - prev.len()]);
                assert(ids[a - prev.len()].0 < ids[b - prev.len()].0);
            }
        }
    }
}

/// Batch AABB queries over a pluggable backend: the reference index by default, or
/// any other implementation of the spatial port.
pub struct SpatialContext<B: SpatialIndexBackend> {
    index: B,
    limits: SpatialQueryLimits,
}

impl SpatialContext<GridReferenceIndex> {
    /// A context over a fresh reference index, with the default query limits.
    pub fn new() -> (c: Self)
        ensures
            c.spec_objects().len() == 0,
            c.spec_index().spec_room() == 65536,
            c.spec_limits() == (SpatialQueryLimits { max_queries: 4096, max_hits: 262144 }),
    {
        Self::with_backend(GridReferenceIndex::new(), SpatialQueryLimits::default())
    }
}

fn capacity() -> (e: KernelError)
    ensures
        e.category == ErrorCategory::CapacityExceeded,
        e.detail == ErrorDetail::NoDetail,
{
    KernelError::new(ErrorCategory::CapacityExceeded, ErrorDetail::NoDetail)
}

fn inconsistency() -> (e: KernelError)
    ensures
        e.category == ErrorCategory::InternalInvariant,
{
    KernelError::new(ErrorCategory::InternalInvariant, ErrorDetail::NoDetail)
}

impl<B: SpatialIndexBackend> SpatialContext<B> {
    pub closed spec fn spec_index(&self) -> B {
        self.index
    }

    pub closed spec fn spec_limits(&self) -> SpatialQueryLimits {
        self.limits
    }

    /// Stored entries of the backend, sorted by id.
    pub open spec fn spec_objects(&self) -> Seq<(SpatialObjectId, Aabb3)> {
        self.spec_index().spec_entries()
    }

    pub fn with_backend(index: B, limits: SpatialQueryLimits) -> (c: Self)
        ensures
            c.spec_index() == index,
            c.spec_limits() == limits,
    {
        SpatialContext { index, limits }
    }

    /// Validate, then insert or replace the box of `id`.
    pub fn upsert(&mut self, id: SpatialObjectId, aabb: Aabb3) -> (r: KernelResult<()>)
        ensures
            final(self).spec_limits() == old(self).spec_limits(),
            !aabb.spec_valid() ==> (r matches Err(e) && e.category == ErrorCategory::InvalidArgument
                && final(self).spec_index() == old(self).spec_index()),
            old(self).spec_index().obeys_port() ==> {
                &&& final(self).spec_index().obeys_port()
                &&& final(self).spec_index().spec_room() == old(self).spec_index().spec_room()
                &&& if !aabb.spec_valid() {
                    final(self).spec_objects() == old(self).spec_objects()
                } else if get_in(old(self).spec_objects(), id) is None && old(self).spec_objects().len()
                    >= old(self).spec_index().spec_room() {
                    r matches Err(e) && e.category == ErrorCategory::CapacityExceeded
                        && final(self).spec_objects() == old(self).spec_objects()
                } else {
                    &&& r is Ok
                    &&& get_in(final(self).spec_objects(), id) == Some(aabb)
                    &&& forall|other: SpatialObjectId| other != id ==> #[trigger] get_in(final(self).spec_objects(), other)
                        == get_in(old(self).spec_objects(), other)
                }
            },
    {
        aabb.validate()?;
        self.index.upsert(id, aabb)
    }

    pub fn remove(&mut self, id: SpatialObjectId) -> (r: KernelResult<()>)
        ensures
            final(self).spec_limits() == old(self).spec_limits(),
            old(self).spec_index().obeys_port() ==> {
                &&& final(self).spec_index().obeys_port()
                &&& final(self).spec_index().spec_room() == old(self).spec_index().spec_room()
                &&& match get_in(old(self).spec_objects(), id) {
                    None => r matches Err(e) && e.category == ErrorCategory::InvalidHandle
                        && final(self).spec_objects() == old(self).spec_objects(),
                    Some(_) => {
                        &&& r is Ok
                        &&& get_in(final(self).spec_objects(), id) is None
                        &&& forall|other: SpatialObjectId| other != id ==> #[trigger] get_in(final(self).spec_objects(), other)
                            == get_in(old(self).spec_objects(), other)
                    },
                }
            },
    {
        self.index.remove(id)
    }

    /// How many hits `aabb` has: asked of the backend with no room, which answers
    /// with the capacity it needs.
    fn hits_needed(&self, aabb: Aabb3) -> (r: KernelResult<usize>)
        requires
            aabb.spec_valid(),
        ensures
            self.spec_index().obeys_port() ==> {
                &&& wf_entries(self.spec_objects())
                &&& overlap_ids(self.spec_objects(), aabb).len() <= usize::MAX
                &&& r == Ok::<usize, KernelError>(overlap_ids(self.spec_objects(), aabb).len() as usize)
            },
    {
        let mut none: Vec<SpatialObjectId> = Vec::new();
        let answer = self.index.query_aabb(aabb, none.as_mut_slice());
        proof {
            lemma_overlap_ids_members(self.spec_objects(), aabb);
        }
        match answer {
            Ok(0) => Ok(0),
            Ok(_) => Err(inconsistency()),
            Err(error) => {
                if error.category != ErrorCategory::BufferTooSmall {
                    return Err(error);
                }
                match error.detail {
                    ErrorDetail::RequiredCapacity { required, .. } => {
                        if required > usize::MAX as u64 {
                            return Err(capacity());
                        }
                        Ok(required as usize)
                    },
                    _ => Err(error),
                }
            },
        }
    }

    /// Size every query first, then collect every query's hits, sort them by (query
    /// ordinal, object id), and write them only when all of them fit. `out` is
    /// untouched on any failure.
    pub fn query_aabb_batch(&self, queries: &[AabbQuery], out: &mut [SpatialHit]) -> (r: KernelResult<usize>)
        ensures
            r is Err ==> final(out)@ == old(out)@,
            r matches Ok(n) ==> {
                &&& n <= old(out)@.len()
                &&& final(out)@.len() == old(out)@.len()
                &&& final(out)@.subrange(n as int, old(out)@.len() as int) == old(out)@.subrange(n as int, old(out)@.len() as int)
                &&& hits_sorted(final(out)@.subrange(0, n as int))
                &&& forall|k: int| 0 <= k < n ==> (#[trigger] final(out)@[k]).query_ordinal < queries@.len()
                &&& exists|answers: Seq<Seq<SpatialObjectId>>| #![trigger tag_all(answers, answers.len() as int)]
                    answers.len() == queries@.len() && final(out)@.subrange(0, n as int) == hsort(
                    tag_all(answers, answers.len() as int))
                &&& forall|j: int| 0 <= j < queries@.len() ==> (#[trigger] queries@[j]).aabb.spec_valid()
            },
            if queries@.len() > self.spec_limits().max_queries || queries@.len() > u32::MAX {
                r matches Err(e) && e.category == ErrorCategory::CapacityExceeded
            } else {
                &&& queries@.len() == 0 ==> r == Ok::<usize, KernelError>(0)
                &&& queries@.len() > 0 && !queries@[0].aabb.spec_valid() ==> (r matches Err(e)
                    && e.category == ErrorCategory::InvalidArgument)
                &&& self.spec_index().obeys_port() ==> match batch_sizing(self.spec_objects(), queries@, queries@.len() as int, self.spec_limits().max_hits as nat) {
                    Err(c) => r matches Err(e) && e.category == c,
                    Ok(total) => if total > old(out)@.len() {
                        r matches Err(e) && e.category == ErrorCategory::BufferTooSmall
                            && e.detail == (ErrorDetail::RequiredCapacity { required: total as u64, provided: old(out)@.len() as u64 })
                    } else {
                        let hits = batch_hits(self.spec_objects(), queries@, queries@.len() as int);
                        &&& r == Ok::<usize, KernelError>(total as usize)
                        &&& hits.len() == total
                        &&& final(out)@ == hits + old(out)@.subrange(total as int, old(out)@.len() as int)
                        &&& forall|a: int, b: int| 0 <= a < b < total ==> hit_lt(#[trigger] final(out)@[a], #[trigger] final(out)@[b])
                    },
                }
            },
    {
        if queries.len() > self.limits.max_queries || queries.len() > u32::MAX as usize {
            return Err(capacity());
        }
        let ghost objs = self.spec_objects();
        let ghost maxh = self.limits.max_hits as nat;
        let ghost ob = self.spec_index().obeys_port();
        let mut sizes: Vec<usize> = Vec::new();
        let mut total: usize = 0;
        let mut k: usize = 0;
        while k < queries.len()
            invariant
                k <= queries@.len(),
                objs == self.spec_objects(),
                ob == self.spec_index().obeys_port(),
                maxh == self.limits.max_hits as nat,
                ob ==> batch_sizing(objs, queries@, k as int, maxh) == Ok::<nat, ErrorCategory>(total as nat),
                sizes@.len() == k,
                total == sum_to(sizes@, k as int),
                ob ==> forall|j: int| 0 <= j < k ==> #[trigger] sizes@[j] == overlap_ids(objs, queries@[j].aabb).len(),
                ob && k > 0 ==> wf_entries(objs),
                forall|j: int| 0 <= j < k ==> (#[trigger] queries@[j]).aabb.spec_valid(),
                out@ == old(out)@,
                queries@.len() <= self.limits.max_queries,
                queries@.len() <= u32::MAX,
            decreases queries@.len() - k,
        {
            let aabb = queries[k].aabb;
            match aabb.validate() {
                Err(e) => {
                    proof {
                        assert(!queries@[k as int].aabb.spec_valid());
                        if ob {
                            assert(batch_sizing(objs, queries@, k + 1, maxh) == Err::<nat, ErrorCategory>(ErrorCategory::InvalidArgument));
                            lemma_sizing_err_sticks(objs, queries@, k + 1, queries@.len() as int, maxh);
                        }
                        assert(e.category == ErrorCategory::InvalidArgument);
                    }
                    return Err(e);
                },
                Ok(()) => {},
            }
            let required = match self.hits_needed(aabb) {
                Ok(n) => n,
                Err(e) => return Err(e),
            };
            let next = match total.checked_add(required) {
                Some(t) => t,
                None => {
                    proof {
                        if ob {
                            lemma_sizing_err_sticks(objs, queries@, k + 1, queries@.len() as int, maxh);
                        }
                    }
                    return Err(capacity());
                },
            };
            if next > self.limits.max_hits {
                proof {
                    if ob {
                        lemma_sizing_err_sticks(objs, queries@, k + 1, queries@.len() as int, maxh);
                    }
                }
                return Err(capacity());
            }
            proof {
                lemma_sum_push(sizes@, required, k as int);
            }
            sizes.push(required);
            total = next;
            k = k + 1;
        }
        if total > out.len() {
            return Err(KernelError::buffer_too_small(total as u64, out.len() as u64));
        }
        proof {
            if ob {
                lemma_batch_len(objs, queries@, queries@.len() as int, maxh);
            }
        }
        let mut answers: Vec<Vec<SpatialObjectId>> = Vec::new();
        let mut q: usize = 0;
        while q < queries.len()
            invariant
                q <= queries@.len(),
                queries@.len() <= u32::MAX,
                queries@.len() <= self.limits.max_queries,
                objs == self.spec_objects(),
                ob == self.spec_index().obeys_port(),
                sizes@.len() == queries@.len(),
                ob ==> forall|j: int| 0 <= j < queries@.len() ==> #[trigger] sizes@[j] == overlap_ids(objs, queries@[j].aabb).len(),
                ob ==> batch_sizing(objs, queries@, queries@.len() as int, maxh) == Ok::<nat, ErrorCategory>(total as nat),
                forall|j: int| 0 <= j < queries@.len() ==> (#[trigger] queries@[j]).aabb.spec_valid(),
                total <= out@.len(),
                out@ == old(out)@,
                answers@.len() == q,
                ob ==> forall|j: int| 0 <= j < q ==> (#[trigger] answers@[j])@ == overlap_ids(objs, queries@[j].aabb),
            decreases queries@.len() - q,
        {
            let required = sizes[q];
            let mut scratch: Vec<SpatialObjectId> = Vec::new();
            while scratch.len() < required
                invariant
                    scratch@.len() <= required,
                decreases required - scratch@.len(),
            {
                scratch.push(SpatialObjectId::from_raw(0));
            }
            match self.index.query_aabb(queries[q].aabb, scratch.as_mut_slice()) {
                Ok(written) => {
                    if written != required || scratch.len() != required {
                        return Err(inconsistency());
                    }
                },
                Err(e) => return Err(e),
            }
            proof {
                if ob {
                    assert(scratch@ =~= overlap_ids(objs, queries@[q as int].aabb));
                }
            }
            answers.push(scratch);
            q = q + 1;
        }
        let ghost views = answers_view(answers@);
        let staged = stage_hits(&answers);
        proof {
            if ob {
                assert(views =~= answers_of(objs, queries@));
                lemma_tag_answers(objs, queries@, queries@.len() as int);
                if queries@.len() > 0 {
                    lemma_batch_sorted(objs, queries@, queries@.len() as int);
                }
                lemma_hsort_sorted(batch_hits(objs, queries@, queries@.len() as int));
            }
        }
        if staged.len() != total {
            return Err(inconsistency());
        }
        let mut i: usize = 0;
        while i < total
            invariant
                i <= total,
                total == staged@.len(),
                total <= out@.len(),
                out@.len() == old(out)@.len(),
                forall|j: int| 0 <= j < i ==> out@[j] == staged@[j],
                forall|j: int| i <= j < out@.len() ==> out@[j] == old(out)@[j],
            decreases total - i,
        {
            out[i] = staged[i];
            i = i + 1;
        }
        proof {
            assert(out@.subrange(0, total as int) =~= staged@);
            assert(out@.subrange(total as int, out@.len() as int) =~= old(out)@.subrange(total as int, old(out)@.len() as int));
            assert(views.len() == queries@.len());
            assert(out@.subrange(0, total as int) == hsort(tag_all(views, views.len() as int)));
            assert forall|k: int| 0 <= k < total implies (#[trigger] out@[k]).query_ordinal < queries@.len() by {
                assert(out@[k] == staged@[k]);
            }
            if ob {
                assert(out@ =~= batch_hits(objs, queries@, queries@.len() as int) + old(out)@.subrange(total as int, old(out)@.len() as int));
            }
        }
        Ok(total)
    }
}

/// Each answer as the ids it holds.
pub open spec fn answers_view(answers: Seq<Vec<SpatialObjectId>>) -> Seq<Seq<SpatialObjectId>> {
    answers.map_values(|v: Vec<SpatialObjectId>| v@)
}

/// The reference answers: for each query, the stored ids whose boxes overlap it.
pub open spec fn answers_of(objs: Seq<(SpatialObjectId, Aabb3)>, queries: Seq<AabbQuery>) -> Seq<Seq<SpatialObjectId>> {
    Seq::new(queries.len(), |q: int| overlap_ids(objs, queries[q].aabb))
}

/// The hits of the first `n` answers, each tagged with its query ordinal, query by query.
pub open spec fn tag_all(answers: Seq<Seq<SpatialObjectId>>, n: int) -> Seq<SpatialHit>
    decreases n,
{
    if n <= 0 {
        Seq::empty()
    } else {
        tag_all(answers, n - 1) + hits_of(n - 1, answers[n - 1])
    }
}

/// `a` comes no later than `b` in (query ordinal, object id) order.
pub open spec fn hit_le(a: SpatialHit, b: SpatialHit) -> bool {
    a.query_ordinal < b.query_ordinal || (a.query_ordinal == b.query_ordinal && a.object_id.0 <= b.object_id.0)
}

pub open spec fn hits_sorted(s: Seq<SpatialHit>) -> bool {
    forall|a: int, b: int| 0 <= a < b < s.len() ==> hit_le(#[trigger] s[a], #[trigger] s[b])
}

/// Where insertion sort puts `x` among the first `p` of `out`.
pub open spec fn hit_ins_pos(out: Seq<SpatialHit>, x: SpatialHit, p: int) -> int
    decreases p,
{
    if p > 0 && !hit_le(out[p - 1], x) {
        hit_ins_pos(out, x, p - 1)
    } else {
        p
    }
}

/// `s` sorted by (query ordinal, object id), by insertion.
pub open spec fn hsort(s: Seq<SpatialHit>) -> Seq<SpatialHit>
    decreases s.len(),
{
    if s.len() == 0 {
        s
    } else {
        let o = hsort(s.drop_last());
        o.insert(hit_ins_pos(o, s.last(), o.len() as int), s.last())
    }
}

/// The tagged reference answers are the batch hits.
pub proof fn lemma_tag_answers(objs: Seq<(SpatialObjectId, Aabb3)>, queries: Seq<AabbQuery>, n: int)
    requires
        0 <= n <= queries.len(),
    ensures
        tag_all(answers_of(objs, queries), n) == batch_hits(objs, queries, n),
    decreases n,
{
    if n > 0 {
        lemma_tag_answers(objs, queries, n - 1);
    }
}

/// Sorting hits that are already in order leaves them as they are.
pub proof fn lemma_hsort_sorted(s: Seq<SpatialHit>)
    requires
        hits_sorted(s) || forall|a: int, b: int| 0 <= a < b < s.len() ==> hit_lt(#[trigger] s[a], #[trigger] s[b]),
    ensures
        hsort(s) == s,
    decreases s.len(),
{
    assert(hits_sorted(s)) by {
        assert forall|a: int, b: int| 0 <= a < b < s.len() implies hit_le(#[trigger] s[a], #[trigger] s[b]) by {
            if !hits_sorted(s) {
                assert(hit_lt(s[a], s[b]));
            }
        }
    }
    if s.len() > 0 {
        let d = s.drop_last();
        assert(hits_sorted(d));
        lemma_hsort_sorted(d);
        if d.len() > 0 {
            assert(hit_le(d[d.len() - 1], s.last()));
        }
        assert(d.insert(d.len() as int, s.last()) =~= s);
    }
}

/// `a` comes strictly before `b`: the test insertion sort moves past.
fn hit_before(a: &SpatialHit, b: &SpatialHit) -> (r: bool)
    ensures
        r == !hit_le(*b, *a),
{
    a.query_ordinal < b.query_ordinal || (a.query_ordinal == b.query_ordinal && a.object_id.0 < b.object_id.0)
}

/// Stable insertion sort by (query ordinal, object id).
fn sort_hits(v: Vec<SpatialHit>) -> (out: Vec<SpatialHit>)
    ensures
        out@ == hsort(v@),
        hits_sorted(out@),
        out@.len() == v@.len(),
        forall|k: int| 0 <= k < out@.len() ==> v@.contains(#[trigger] out@[k]),
{
    let mut out: Vec<SpatialHit> = Vec::new();
    let mut i: usize = 0;
    while i < v.len()
        invariant
            i <= v@.len(),
            out@.len() == i,
            out@ == hsort(v@.take(i as int)),
            hits_sorted(out@),
            forall|k: int| 0 <= k < out@.len() ==> v@.contains(#[trigger] out@[k]),
        decreases v@.len() - i,
    {
        let x = v[i];
        let mut p: usize = out.len();
        while p > 0 && hit_before(&x, &out[p - 1])
            invariant
                p <= out@.len(),
                forall|k: int| p <= k < out@.len() ==> !hit_le(#[trigger] out@[k], x),
                hit_ins_pos(out@, x, out@.len() as int) == hit_ins_pos(out@, x, p as int),
            decreases p,
        {
            p = p - 1;
        }
        proof {
            assert(v@.take(i + 1).drop_last() =~= v@.take(i as int));
            assert(v@.take(i + 1).last() == x);
            if p > 0 {
                assert(hit_le(out@[p - 1], x));
            }
        }
        let ghost before = out@;
        out.insert(p, x);
        proof {
            assert(out@ == before.insert(p as int, x));
            assert forall|a: int, b: int| 0 <= a < b < out@.len() implies hit_le(#[trigger] out@[a], #[trigger] out@[b]) by {
                if a < p && b < p {
                    assert(out@[a] == before[a] && out@[b] == before[b]);
                } else if a < p && b == p {
                    assert(out@[a] == before[a]);
                    assert(hit_le(before[a], before[p - 1]) || a == p - 1);
                } else if a < p && b > p {
                    assert(out@[a] == before[a] && out@[b] == before[b - 1]);
                } else if a == p {
                    assert(out@[b] == before[b - 1]);
                    assert(!hit_le(before[b - 1], x));
                } else {
                    assert(out@[a] == before[a - 1] && out@[b] == before[b - 1]);
                }
            }
            assert forall|k: int| 0 <= k < out@.len() implies v@.contains(#[trigger] out@[k]) by {
                if k < p {
                    assert(out@[k] == before[k]);
                } else if k == p {
                    assert(v@[i as int] == x);
                } else {
                    assert(out@[k] == before[k - 1]);
                }
            }
        }
        i = i + 1;
    }
    proof {
        assert(v@.take(v@.len() as int) =~= v@);
    }
    out
}

/// The batch result built from each query's answer: every answer's ids tagged with
/// the ordinal of its query, then all of them sorted by (query ordinal, object id).
pub fn stage_hits(answers: &Vec<Vec<SpatialObjectId>>) -> (r: Vec<SpatialHit>)
    requires
        answers@.len() <= u32::MAX,
    ensures
        r@ == hsort(tag_all(answers_view(answers@), answers@.len() as int)),
        hits_sorted(r@),
        forall|k: int| 0 <= k < r@.len() ==> (#[trigger] r@[k]).query_ordinal < answers@.len(),
{
    let ghost views = answers_view(answers@);
    let mut tagged: Vec<SpatialHit> = Vec::new();
    let mut q: usize = 0;
    while q < answers.len()
        invariant
            q <= answers@.len(),
            answers@.len() <= u32::MAX,
            views == answers_view(answers@),
            tagged@ == tag_all(views, q as int),
            forall|k: int| 0 <= k < tagged@.len() ==> (#[trigger] tagged@[k]).query_ordinal < q,
        decreases answers@.len() - q,
    {
        let ids = &answers[q];
        let ghost base = tagged@;
        let mut t: usize = 0;
        while t < ids.len()
            invariant
                t <= ids@.len(),
                q < answers@.len(),
                answers@.len() <= u32::MAX,
                ids@ == views[q as int],
                views == answers_view(answers@),
                tagged@ == base + hits_of(q as int, ids@.take(t as int)),
                forall|k: int| 0 <= k < base.len() ==> (#[trigger] base[k]).query_ordinal < q,
                forall|k: int| 0 <= k < tagged@.len() ==> (#[trigger] tagged@[k]).query_ordinal <= q,
            decreases ids@.len() - t,
        {
            tagged.push(SpatialHit { query_ordinal: q as u32, object_id: ids[t] });
            proof {
                assert(hits_of(q as int, ids@.take(t + 1)) =~= hits_of(q as int, ids@.take(t as int)).push(
                    SpatialHit { query_ordinal: q as u32, object_id: ids@[t as int] }));
                assert(tagged@ =~= base + hits_of(q as int, ids@.take(t + 1)));
            }
            t = t + 1;
        }
        proof {
            assert(ids@.take(ids@.len() as int) =~= ids@);
        }
        q = q + 1;
    }
    proof {
        assert forall|k: int| 0 <= k < tagged@.len() implies (#[trigger] tagged@[k]).query_ordinal < answers@.len() by {}
    }
    let ghost all = tagged@;
    let r = sort_hits(tagged);
    proof {
        assert forall|k: int| 0 <= k < r@.len() implies (#[trigger] r@[k]).query_ordinal < answers@.len() by {
            assert(all.contains(r@[k]));
            let j = choose|j: int| 0 <= j < all.len() && all[j] == r@[k];
            assert(all[j].query_ordinal < answers@.len());
        }
    }
    r
}

/// Sum of the first `n` sizes.
pub open spec fn sum_to(s: Seq<usize>, n: int) -> nat
    decreases n,
{
    if n <= 0 {
        0
    } else {
        sum_to(s, n - 1) + s[n - 1] as nat
    }
}

proof fn lemma_sum_push(s: Seq<usize>, x: usize, n: int)
    requires
        0 <= n <= s.len(),
    ensures
        sum_to(s.push(x), n) == sum_to(s, n),
        n == s.len() ==> sum_to(s.push(x), n + 1) == sum_to(s, n) + x,
    decreases n,
{
    if n > 0 {
        lemma_sum_push(s, x, n - 1);
    }
}

proof fn lemma_sum_step(s: Seq<usize>, q: int, n: int)
    requires
        0 <= q < n <= s.len(),
    ensures
        sum_to(s, q + 1) <= sum_to(s, n),
    decreases n,
{
    if q + 1 < n {
        lemma_sum_step(s, q, n - 1);
    }
}

pub proof fn lemma_sizing_err_sticks(objs: Seq<(SpatialObjectId, Aabb3)>, queries: Seq<AabbQuery>, k: int, n: int, maxh: nat)
    requires
        0 <= k <= n,
        batch_sizing(objs, queries, k, maxh) is Err,
    ensures
        batch_sizing(objs, queries, n, maxh) == batch_sizing(objs, queries, k, maxh),
    decreases n - k,
{
    if k < n {
        lemma_sizing_err_sticks(objs, queries, k, n - 1, maxh);
    }
}

} // verus!
