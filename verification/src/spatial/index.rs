//! Object-safe spatial port and the brute-force reference index.
use vstd::prelude::*;
use crate::kernel::error::{ErrorCategory, ErrorDetail, KernelError, KernelResult};
use crate::spatial::types::{Aabb3, SpatialObjectId, law_overlap_is_a_shared_point, overlaps, share_a_point, spec_overlaps};

verus! {

/// Storage and overlap queries over boxes keyed by object id: the port a spatial
/// context runs on, with the reference index here and other backends plugged in by
/// the host. Inputs are validated; query results are sorted by id; `out` is left
/// unchanged on any failure.
pub trait SpatialIndexBackend {
    /// Whether this backend keeps the port contract stated on the methods below.
    /// The reference index here does; of a backend the library has not verified,
    /// nothing is promised.
    open spec fn obeys_port(&self) -> bool {
        false
    }

    /// The stored boxes, in ascending id order.
    open spec fn spec_entries(&self) -> Seq<(SpatialObjectId, Aabb3)> {
        Seq::empty()
    }

    /// How many ids the backend holds at most.
    open spec fn spec_room(&self) -> usize {
        0
    }

    /// Insert or replace the box of `id`; a new id needs free room.
    fn upsert(&mut self, id: SpatialObjectId, aabb: Aabb3) -> (r: KernelResult<()>)
        ensures
            old(self).obeys_port() ==> {
                &&& final(self).obeys_port()
                &&& final(self).spec_room() == old(self).spec_room()
                &&& if !aabb.spec_valid() {
                    r matches Err(e) && e.category == ErrorCategory::InvalidArgument
                        && final(self).spec_entries() == old(self).spec_entries()
                } else if get_in(old(self).spec_entries(), id) is None && old(self).spec_entries().len()
                    >= old(self).spec_room() {
                    r matches Err(e) && e.category == ErrorCategory::CapacityExceeded && e.detail == ErrorDetail::NoDetail
                        && final(self).spec_entries() == old(self).spec_entries()
                } else {
                    &&& r is Ok
                    &&& get_in(final(self).spec_entries(), id) == Some(aabb)
                    &&& forall|other: SpatialObjectId| other != id ==> #[trigger] get_in(final(self).spec_entries(), other)
                        == get_in(old(self).spec_entries(), other)
                    &&& final(self).spec_entries().len() == old(self).spec_entries().len() + if get_in(
                        old(self).spec_entries(),
                        id,
                    ) is None {
                        1int
                    } else {
                        0int
                    }
                }
            },
    ;

    /// Forget `id`; unknown ids are refused as invalid handles.
    fn remove(&mut self, id: SpatialObjectId) -> (r: KernelResult<()>)
        ensures
            old(self).obeys_port() ==> {
                &&& final(self).obeys_port()
                &&& final(self).spec_room() == old(self).spec_room()
                &&& match get_in(old(self).spec_entries(), id) {
                    None => r matches Err(e) && e.category == ErrorCategory::InvalidHandle
                        && e.detail == ErrorDetail::NoDetail && final(self).spec_entries() == old(self).spec_entries(),
                    Some(_) => {
                        &&& r is Ok
                        &&& get_in(final(self).spec_entries(), id) is None
                        &&& forall|other: SpatialObjectId| other != id ==> #[trigger] get_in(final(self).spec_entries(), other)
                            == get_in(old(self).spec_entries(), other)
                        &&& final(self).spec_entries().len() + 1 == old(self).spec_entries().len()
                    },
                }
            },
    ;

    /// Ids of the stored boxes overlapping `aabb`, ascending; nothing is written
    /// unless all of them fit.
    fn query_aabb(&self, aabb: Aabb3, out: &mut [SpatialObjectId]) -> (r: KernelResult<usize>)
        ensures
            self.obeys_port() ==> {
                &&& wf_entries(self.spec_entries())
                &&& self.spec_entries().len() <= usize::MAX
                &&& if !aabb.spec_valid() {
                    r matches Err(e) && e.category == ErrorCategory::InvalidArgument && final(out)@ == old(out)@
                } else if overlap_ids(self.spec_entries(), aabb).len() > old(out)@.len() {
                    &&& r matches Err(e) && e.category == ErrorCategory::BufferTooSmall && e.detail == (ErrorDetail::RequiredCapacity {
                        required: overlap_ids(self.spec_entries(), aabb).len() as u64,
                        provided: old(out)@.len() as u64,
                    })
                    &&& final(out)@ == old(out)@
                } else {
                    let ids = overlap_ids(self.spec_entries(), aabb);
                    &&& r == Ok::<usize, KernelError>(ids.len() as usize)
                    &&& final(out)@ == ids + old(out)@.subrange(ids.len() as int, old(out)@.len() as int)
                }
            },
    ;
}

/// Entries sorted by strictly increasing id.
pub open spec fn sorted_entries(objs: Seq<(SpatialObjectId, Aabb3)>) -> bool {
    forall|i: int, j: int| 0 <= i < j < objs.len() ==> (#[trigger] objs[i]).0.0 < (#[trigger] objs[j]).0.0
}

pub open spec fn wf_entries(objs: Seq<(SpatialObjectId, Aabb3)>) -> bool {
    &&& sorted_entries(objs)
    &&& forall|i: int| 0 <= i < objs.len() ==> (#[trigger] objs[i]).1.spec_valid()
}

/// The box stored for `id` in `objs`, if any.
pub open spec fn get_in(objs: Seq<(SpatialObjectId, Aabb3)>, id: SpatialObjectId) -> Option<Aabb3> {
    if exists|j: int| 0 <= j < objs.len() && objs[j].0 == id {
        Some(objs[choose|j: int| 0 <= j < objs.len() && objs[j].0 == id].1)
    } else {
        None
    }
}

/// Ids of the entries overlapping `q`, in entry order.
pub open spec fn overlap_ids(objs: Seq<(SpatialObjectId, Aabb3)>, q: Aabb3) -> Seq<SpatialObjectId>
    decreases objs.len(),
{
    if objs.len() == 0 {
        Seq::empty()
    } else {
        let rest = overlap_ids(objs.drop_last(), q);
        if spec_overlaps(objs.last().1, q) {
            rest.push(objs.last().0)
        } else {
            rest
        }
    }
}

/// `id` names an entry of `objs` whose box overlaps `q`.
pub open spec fn overlapping_member(objs: Seq<(SpatialObjectId, Aabb3)>, id: SpatialObjectId, q: Aabb3) -> bool {
    exists|j: int| 0 <= j < objs.len() && (#[trigger] objs[j]).0 == id && spec_overlaps(objs[j].1, q)
}

pub proof fn lemma_overlap_ids_members(objs: Seq<(SpatialObjectId, Aabb3)>, q: Aabb3)
    ensures
        overlap_ids(objs, q).len() <= objs.len(),
        forall|k: int| 0 <= k < overlap_ids(objs, q).len() ==> overlapping_member(objs, #[trigger] overlap_ids(objs, q)[k], q),
    decreases objs.len(),
{
    if objs.len() > 0 {
        let d = objs.drop_last();
        lemma_overlap_ids_members(d, q);
        let rest = overlap_ids(d, q);
        assert forall|k: int| 0 <= k < overlap_ids(objs, q).len() implies overlapping_member(objs, #[trigger] overlap_ids(objs, q)[k], q) by {
            if k < rest.len() {
                assert(overlap_ids(objs, q)[k] == rest[k]);
                assert(overlapping_member(d, rest[k], q));
                let j = choose|j: int| 0 <= j < d.len() && (#[trigger] d[j]).0 == rest[k] && spec_overlaps(d[j].1, q);
                assert(objs[j] == d[j]);
            } else {
                assert(objs[objs.len() - 1] == objs.last());
                assert(overlap_ids(objs, q)[k] == objs.last().0);
            }
        }
    }
}

/// Query results come out in strictly increasing id order.
pub proof fn lemma_overlap_ids_sorted(objs: Seq<(SpatialObjectId, Aabb3)>, q: Aabb3)
    requires
        sorted_entries(objs),
    ensures
        forall|a: int, b: int| 0 <= a < b < overlap_ids(objs, q).len() ==> (#[trigger] overlap_ids(objs, q)[a]).0
            < (#[trigger] overlap_ids(objs, q)[b]).0,
    decreases objs.len(),
{
    if objs.len() > 0 {
        let d = objs.drop_last();
        assert(sorted_entries(d));
        lemma_overlap_ids_sorted(d, q);
        lemma_overlap_ids_members(d, q);
        let rest = overlap_ids(d, q);
        if spec_overlaps(objs.last().1, q) {
            assert forall|a: int, b: int| 0 <= a < b < overlap_ids(objs, q).len() implies (#[trigger] overlap_ids(objs, q)[a]).0
                < (#[trigger] overlap_ids(objs, q)[b]).0 by {
                if b == rest.len() {
                    assert(overlapping_member(d, rest[a], q));
                    let j = choose|j: int| 0 <= j < d.len() && (#[trigger] d[j]).0 == rest[a] && spec_overlaps(d[j].1, q);
                    assert(objs[j] == d[j]);
                    assert(objs[j].0.0 < objs[objs.len() - 1].0.0);
                }
            }
        }
    }
}

/// A query reports exactly the stored ids whose boxes share a point with the query
/// box: every reported id names a stored box holding a point of the query box, and
/// every stored box that holds one is reported.
pub proof fn law_query_reports_exactly_the_boxes_sharing_a_point(
    objs: Seq<(SpatialObjectId, Aabb3)>,
    q: Aabb3,
    id: SpatialObjectId,
)
    requires
        wf_entries(objs),
        q.spec_valid(),
    ensures
        overlap_ids(objs, q).contains(id) <==> (get_in(objs, id) matches Some(b) && share_a_point(b, q)),
{
    law_query_reports_exactly_the_overlapping(objs, q, id);
    if get_in(objs, id) is Some {
        let c = choose|c: int| 0 <= c < objs.len() && objs[c].0 == id;
        assert(objs[c].1.spec_valid());
        law_overlap_is_a_shared_point(get_in(objs, id)->0, q);
    }
}

/// An entry whose box overlaps `q` is reported.
proof fn lemma_overlap_ids_complete(objs: Seq<(SpatialObjectId, Aabb3)>, q: Aabb3, j: int)
    requires
        0 <= j < objs.len(),
        spec_overlaps(objs[j].1, q),
    ensures
        overlap_ids(objs, q).contains(objs[j].0),
    decreases objs.len(),
{
    let d = objs.drop_last();
    let rest = overlap_ids(d, q);
    if j < objs.len() - 1 {
        assert(d[j] == objs[j]);
        lemma_overlap_ids_complete(d, q, j);
        let k = choose|k: int| 0 <= k < rest.len() && rest[k] == objs[j].0;
        if spec_overlaps(objs.last().1, q) {
            assert(overlap_ids(objs, q)[k] == objs[j].0);
        }
    } else {
        assert(overlap_ids(objs, q) == rest.push(objs[j].0));
        assert(overlap_ids(objs, q)[rest.len() as int] == objs[j].0);
    }
}

/// A query reports exactly the stored ids whose boxes overlap the query box: after
/// `upsert(id, b)` the id is found by every box that overlaps `b`, and after
/// `remove(id)` by none.
pub proof fn law_query_reports_exactly_the_overlapping(objs: Seq<(SpatialObjectId, Aabb3)>, q: Aabb3, id: SpatialObjectId)
    requires
        wf_entries(objs),
    ensures
        overlap_ids(objs, q).contains(id) <==> (get_in(objs, id) matches Some(b) && spec_overlaps(b, q)),
{
    lemma_overlap_ids_members(objs, q);
    if overlap_ids(objs, q).contains(id) {
        let k = choose|k: int| 0 <= k < overlap_ids(objs, q).len() && overlap_ids(objs, q)[k] == id;
        assert(overlapping_member(objs, overlap_ids(objs, q)[k], q));
        let j = choose|j: int| 0 <= j < objs.len() && (#[trigger] objs[j]).0 == id && spec_overlaps(objs[j].1, q);
        let c = choose|c: int| 0 <= c < objs.len() && objs[c].0 == id;
        if c < j {
            assert(objs[c].0.0 < objs[j].0.0);
        } else if c > j {
            assert(objs[j].0.0 < objs[c].0.0);
        }
    }
    if get_in(objs, id) matches Some(b) && spec_overlaps(b, q) {
        let c = choose|c: int| 0 <= c < objs.len() && objs[c].0 == id;
        lemma_overlap_ids_complete(objs, q, c);
    }
}

/// Independent brute-force oracle, not an optimized grid or R-tree.
#[derive(Debug)]
pub struct GridReferenceIndex {
    objects: Vec<(SpatialObjectId, Aabb3)>,
    capacity: usize,
}

impl GridReferenceIndex {
    /// Stored entries, sorted by id.
    pub closed spec fn spec_objects(&self) -> Seq<(SpatialObjectId, Aabb3)> {
        self.objects@
    }

    pub closed spec fn spec_capacity(&self) -> usize {
        self.capacity
    }

    /// Entries are sorted by strictly increasing id and hold valid boxes.
    pub open spec fn wf(&self) -> bool {
        wf_entries(self.spec_objects())
    }

    #[verifier::type_invariant]
    pub(crate) open spec fn inv(&self) -> bool {
        self.wf()
    }

    /// The box stored for `id`, if any.
    pub open spec fn spec_get(&self, id: SpatialObjectId) -> Option<Aabb3> {
        get_in(self.spec_objects(), id)
    }

    pub fn new() -> (g: Self)
        ensures
            g.wf(),
            g.spec_objects().len() == 0,
            g.spec_capacity() == 65536,
    {
        Self::with_capacity(65536)
    }

    pub fn with_capacity(capacity: usize) -> (g: Self)
        ensures
            g.wf(),
            g.spec_objects().len() == 0,
            g.spec_capacity() == capacity,
    {
        GridReferenceIndex { objects: Vec::new(), capacity }
    }

    /// Position where `id` is or would be inserted, and whether it is present.
    fn locate(&self, id: SpatialObjectId) -> (r: (usize, bool))
        ensures
            r.0 <= self.objects@.len(),
            forall|j: int| 0 <= j < r.0 ==> (#[trigger] self.objects@[j]).0.0 < id.0,
            r.1 ==> r.0 < self.objects@.len() && self.objects@[r.0 as int].0 == id,
            !r.1 ==> forall|j: int| r.0 <= j < self.objects@.len() ==> (#[trigger] self.objects@[j]).0.0 > id.0,
    {
        proof {
            use_type_invariant(self);
        }
        let mut p: usize = 0;
        while p < self.objects.len() && self.objects[p].0.0 < id.0
            invariant
                p <= self.objects@.len(),
                forall|j: int| 0 <= j < p ==> (#[trigger] self.objects@[j]).0.0 < id.0,
            decreases self.objects@.len() - p,
        {
            p = p + 1;
        }
        if p < self.objects.len() && self.objects[p].0.0 == id.0 {
            (p, true)
        } else {
            proof {
                assert forall|j: int| p <= j < self.objects@.len() implies (#[trigger] self.objects@[j]).0.0 > id.0 by {
                    if j > p {
                        assert(self.objects@[p as int].0.0 < self.objects@[j].0.0);
                    }
                }
            }
            (p, false)
        }
    }

    /// Ids of the stored boxes overlapping `aabb`, ascending.
    pub fn overlapping_ids(&self, aabb: Aabb3) -> (r: Vec<SpatialObjectId>)
        ensures
            r@ == overlap_ids(self.spec_objects(), aabb),
    {
        let mut r: Vec<SpatialObjectId> = Vec::new();
        let mut i: usize = 0;
        while i < self.objects.len()
            invariant
                i <= self.objects@.len(),
                r@ == overlap_ids(self.objects@.subrange(0, i as int), aabb),
            decreases self.objects@.len() - i,
        {
            proof {
                assert(self.objects@.subrange(0, i + 1).drop_last() =~= self.objects@.subrange(0, i as int));
            }
            if overlaps(self.objects[i].1, aabb) {
                r.push(self.objects[i].0);
            }
            i = i + 1;
        }
        proof {
            assert(self.objects@.subrange(0, i as int) =~= self.objects@);
        }
        r
    }

    /// Number of stored boxes overlapping `aabb`.
    pub fn count_overlapping(&self, aabb: Aabb3) -> (n: usize)
        ensures
            n == overlap_ids(self.spec_objects(), aabb).len(),
    {
        let mut n: usize = 0;
        let mut i: usize = 0;
        while i < self.objects.len()
            invariant
                i <= self.objects@.len(),
                n == overlap_ids(self.objects@.subrange(0, i as int), aabb).len(),
                n <= i,
            decreases self.objects@.len() - i,
        {
            proof {
                assert(self.objects@.subrange(0, i + 1).drop_last() =~= self.objects@.subrange(0, i as int));
                lemma_overlap_ids_members(self.objects@.subrange(0, i as int), aabb);
            }
            if overlaps(self.objects[i].1, aabb) {
                n = n + 1;
            }
            i = i + 1;
        }
        proof {
            assert(self.objects@.subrange(0, i as int) =~= self.objects@);
        }
        n
    }
}

impl SpatialIndexBackend for GridReferenceIndex {
    open spec fn obeys_port(&self) -> bool {
        true
    }

    open spec fn spec_entries(&self) -> Seq<(SpatialObjectId, Aabb3)> {
        self.spec_objects()
    }

    open spec fn spec_room(&self) -> usize {
        self.spec_capacity()
    }

    /// Insert or replace the box of `id`; a new id needs free capacity.
    fn upsert(&mut self, id: SpatialObjectId, aabb: Aabb3) -> (r: KernelResult<()>)
        ensures
            final(self).wf(),
    {
        proof {
            use_type_invariant(&*self);
        }
        aabb.validate()?;
        let (p, found) = self.locate(id);
        proof {
            lemma_get_absent(self, id, p as int, found);
        }
        if !found && self.objects.len() >= self.capacity {
            return Err(KernelError::new(ErrorCategory::CapacityExceeded, ErrorDetail::NoDetail));
        }
        let mut objs: Vec<(SpatialObjectId, Aabb3)> = Vec::new();
        std::mem::swap(&mut objs, &mut self.objects);
        if found {
            objs.set(p, (id, aabb));
            proof {
                lemma_replace(old(self).spec_objects(), objs@, p as int, id, aabb);
            }
        } else {
            objs.insert(p, (id, aabb));
            proof {
                lemma_insert(old(self).spec_objects(), objs@, p as int, id, aabb);
            }
        }
        self.objects = objs;
        Ok(())
    }

    /// Forget `id`; unknown ids are refused as invalid handles.
    fn remove(&mut self, id: SpatialObjectId) -> (r: KernelResult<()>)
        ensures
            final(self).wf(),
    {
        proof {
            use_type_invariant(&*self);
        }
        let (p, found) = self.locate(id);
        proof {
            lemma_get_absent(self, id, p as int, found);
        }
        if !found {
            return Err(KernelError::new(ErrorCategory::InvalidHandle, ErrorDetail::NoDetail));
        }
        let mut objs: Vec<(SpatialObjectId, Aabb3)> = Vec::new();
        std::mem::swap(&mut objs, &mut self.objects);
        objs.remove(p);
        proof {
            lemma_remove(old(self).spec_objects(), objs@, p as int, id);
        }
        self.objects = objs;
        Ok(())
    }

    /// Ids of the stored boxes overlapping `aabb`, ascending; nothing is written
    /// unless all of them fit.
    fn query_aabb(&self, aabb: Aabb3, out: &mut [SpatialObjectId]) -> (r: KernelResult<usize>) {
        proof {
            use_type_invariant(self);
        }
        let _stored = self.objects.len();
        aabb.validate()?;
        let required = self.count_overlapping(aabb);
        if required > out.len() {
            return Err(KernelError::buffer_too_small(required as u64, out.len() as u64));
        }
        let mut w: usize = 0;
        let mut i: usize = 0;
        while i < self.objects.len()
            invariant
                self.wf(),
                i <= self.objects@.len(),
                w == overlap_ids(self.objects@.subrange(0, i as int), aabb).len(),
                required == overlap_ids(self.objects@, aabb).len(),
                required <= out@.len(),
                out@.len() == old(out)@.len(),
                w <= required,
                forall|k: int| 0 <= k < w ==> out@[k] == overlap_ids(self.objects@, aabb)[k],
                forall|k: int| w <= k < out@.len() ==> out@[k] == old(out)@[k],
                overlap_ids(self.objects@.subrange(0, i as int), aabb).len() <= overlap_ids(self.objects@, aabb).len(),
                forall|k: int| 0 <= k < w ==> overlap_ids(self.objects@.subrange(0, i as int), aabb)[k]
                    == overlap_ids(self.objects@, aabb)[k],
            decreases self.objects@.len() - i,
        {
            proof {
                assert(self.objects@.subrange(0, i + 1).drop_last() =~= self.objects@.subrange(0, i as int));
                lemma_overlap_prefix(self.objects@, aabb, i + 1);
            }
            if overlaps(self.objects[i].1, aabb) {
                proof {
                    assert(overlap_ids(self.objects@.subrange(0, i + 1), aabb)[w as int] == self.objects@[i as int].0);
                }
                out[w] = self.objects[i].0;
                w = w + 1;
            }
            i = i + 1;
        }
        proof {
            assert(self.objects@.subrange(0, i as int) =~= self.objects@);
            assert(out@ =~= overlap_ids(self.objects@, aabb) + old(out)@.subrange(required as int, old(out)@.len() as int));
        }
        Ok(required)
    }
}

pub proof fn lemma_overlap_prefix(objs: Seq<(SpatialObjectId, Aabb3)>, q: Aabb3, n: int)
    requires
        0 <= n <= objs.len(),
    ensures
        overlap_ids(objs.subrange(0, n), q).len() <= overlap_ids(objs, q).len(),
        forall|k: int| 0 <= k < overlap_ids(objs.subrange(0, n), q).len() ==> #[trigger] overlap_ids(objs.subrange(0, n), q)[k]
            == overlap_ids(objs, q)[k],
    decreases objs.len() - n,
{
    if n < objs.len() {
        lemma_overlap_prefix(objs, q, n + 1);
        let a = objs.subrange(0, n + 1);
        assert(a.drop_last() =~= objs.subrange(0, n));
        let rest = overlap_ids(objs.subrange(0, n), q);
        assert forall|k: int| 0 <= k < rest.len() implies #[trigger] rest[k] == overlap_ids(objs, q)[k] by {
            assert(overlap_ids(a, q)[k] == rest[k]);
        }
    } else {
        assert(objs.subrange(0, n) =~= objs);
    }
}

proof fn lemma_get_absent(g: &GridReferenceIndex, id: SpatialObjectId, p: int, found: bool)
    requires
        g.wf(),
        0 <= p <= g.spec_objects().len(),
        forall|j: int| 0 <= j < p ==> (#[trigger] g.spec_objects()[j]).0.0 < id.0,
        found ==> p < g.spec_objects().len() && g.spec_objects()[p].0 == id,
        !found ==> forall|j: int| p <= j < g.spec_objects().len() ==> (#[trigger] g.spec_objects()[j]).0.0 > id.0,
    ensures
        found ==> g.spec_get(id) == Some(g.spec_objects()[p].1),
        !found ==> g.spec_get(id) is None,
{
    let o = g.spec_objects();
    if found {
        let j = choose|j: int| 0 <= j < o.len() && o[j].0 == id;
        if j < p {
            assert(o[j].0.0 < id.0);
        } else if j > p {
            assert(o[p].0.0 < o[j].0.0);
        }
    } else {
        if exists|j: int| 0 <= j < o.len() && o[j].0 == id {
            let j = choose|j: int| 0 <= j < o.len() && o[j].0 == id;
            if j < p {
                assert(o[j].0.0 < id.0);
            } else {
                assert(o[j].0.0 > id.0);
            }
        }
    }
}

proof fn lemma_entry_get(o: Seq<(SpatialObjectId, Aabb3)>, j: int)
    requires
        wf_entries(o),
        0 <= j < o.len(),
    ensures
        get_in(o, o[j].0) == Some(o[j].1),
{
    let id = o[j].0;
    let k = choose|k: int| 0 <= k < o.len() && o[k].0 == id;
    if k < j {
        assert(o[k].0.0 < o[j].0.0);
    } else if k > j {
        assert(o[j].0.0 < o[k].0.0);
    }
}

proof fn lemma_get_from_entries(o: Seq<(SpatialObjectId, Aabb3)>, id: SpatialObjectId)
    ensures
        get_in(o, id) matches Some(b) ==> exists|j: int| 0 <= j < o.len() && o[j] == (id, b),
        get_in(o, id) is None ==> forall|j: int| 0 <= j < o.len() ==> o[j].0 != id,
{
}

proof fn lemma_replace(ao: Seq<(SpatialObjectId, Aabb3)>, bo: Seq<(SpatialObjectId, Aabb3)>, p: int, id: SpatialObjectId, aabb: Aabb3)
    requires
        wf_entries(ao),
        0 <= p < ao.len(),
        ao[p].0 == id,
        aabb.spec_valid(),
        bo == ao.update(p, (id, aabb)),
    ensures
        wf_entries(bo),
        get_in(bo, id) == Some(aabb),
        forall|other: SpatialObjectId| other != id ==> #[trigger] get_in(bo, other) == get_in(ao, other),
{
    assert(wf_entries(bo)) by {
        assert forall|i: int, j: int| 0 <= i < j < bo.len() implies (#[trigger] bo[i]).0.0 < (#[trigger] bo[j]).0.0 by {
            assert(ao[i].0 == bo[i].0);
            assert(ao[j].0 == bo[j].0);
        }
        assert forall|i: int| 0 <= i < bo.len() implies (#[trigger] bo[i]).1.spec_valid() by {
            if i != p {
                assert(ao[i].1.spec_valid());
            }
        }
    }
    lemma_entry_get(bo, p);
    assert forall|other: SpatialObjectId| other != id implies #[trigger] get_in(bo, other) == get_in(ao, other) by {
        lemma_get_from_entries(ao, other);
        lemma_get_from_entries(bo, other);
        match get_in(ao, other) {
            Some(x) => {
                let j = choose|j: int| 0 <= j < ao.len() && ao[j] == (other, x);
                assert(j != p);
                assert(bo[j] == (other, x));
                lemma_entry_get(bo, j);
            },
            None => {
                assert forall|j: int| 0 <= j < bo.len() implies bo[j].0 != other by {
                    if j != p {
                        assert(bo[j] == ao[j]);
                    }
                }
            },
        }
    }
}

proof fn lemma_insert(ao: Seq<(SpatialObjectId, Aabb3)>, bo: Seq<(SpatialObjectId, Aabb3)>, p: int, id: SpatialObjectId, aabb: Aabb3)
    requires
        wf_entries(ao),
        0 <= p <= ao.len(),
        forall|j: int| 0 <= j < p ==> (#[trigger] ao[j]).0.0 < id.0,
        forall|j: int| p <= j < ao.len() ==> (#[trigger] ao[j]).0.0 > id.0,
        aabb.spec_valid(),
        bo == ao.insert(p, (id, aabb)),
    ensures
        wf_entries(bo),
        get_in(bo, id) == Some(aabb),
        forall|other: SpatialObjectId| other != id ==> #[trigger] get_in(bo, other) == get_in(ao, other),
{
    assert forall|j: int| 0 <= j < bo.len() implies #[trigger] bo[j] == if j < p { ao[j] } else if j == p { (id, aabb) } else { ao[j - 1] } by {}
    assert(wf_entries(bo)) by {
        assert forall|i: int, j: int| 0 <= i < j < bo.len() implies (#[trigger] bo[i]).0.0 < (#[trigger] bo[j]).0.0 by {
            if i < p && j > p {
                assert(ao[i].0.0 < id.0 && id.0 < ao[j - 1].0.0);
            } else if i > p {
                assert(ao[i - 1].0.0 < ao[j - 1].0.0);
            }
        }
        assert forall|i: int| 0 <= i < bo.len() implies (#[trigger] bo[i]).1.spec_valid() by {
            if i < p {
                assert(ao[i].1.spec_valid());
            } else if i > p {
                assert(ao[i - 1].1.spec_valid());
            }
        }
    }
    lemma_entry_get(bo, p);
    assert forall|other: SpatialObjectId| other != id implies #[trigger] get_in(bo, other) == get_in(ao, other) by {
        lemma_get_from_entries(ao, other);
        lemma_get_from_entries(bo, other);
        match get_in(ao, other) {
            Some(x) => {
                let j = choose|j: int| 0 <= j < ao.len() && ao[j] == (other, x);
                let k = if j < p { j } else { j + 1 };
                assert(bo[k] == (other, x));
                lemma_entry_get(bo, k);
            },
            None => {
                assert forall|j: int| 0 <= j < bo.len() implies bo[j].0 != other by {
                    if j < p {
                        assert(ao[j].0 != other);
                    } else if j > p {
                        assert(ao[j - 1].0 != other);
                    }
                }
            },
        }
    }
}

proof fn lemma_remove(ao: Seq<(SpatialObjectId, Aabb3)>, bo: Seq<(SpatialObjectId, Aabb3)>, p: int, id: SpatialObjectId)
    requires
        wf_entries(ao),
        0 <= p < ao.len(),
        ao[p].0 == id,
        bo == ao.remove(p),
    ensures
        wf_entries(bo),
        get_in(bo, id) is None,
        forall|other: SpatialObjectId| other != id ==> #[trigger] get_in(bo, other) == get_in(ao, other),
{
    assert forall|j: int| 0 <= j < bo.len() implies #[trigger] bo[j] == if j < p { ao[j] } else { ao[j + 1] } by {}
    assert(wf_entries(bo)) by {
        assert forall|i: int, j: int| 0 <= i < j < bo.len() implies (#[trigger] bo[i]).0.0 < (#[trigger] bo[j]).0.0 by {
            let i0 = if i < p { i } else { i + 1 };
            let j0 = if j < p { j } else { j + 1 };
            assert(ao[i0].0.0 < ao[j0].0.0);
        }
        assert forall|i: int| 0 <= i < bo.len() implies (#[trigger] bo[i]).1.spec_valid() by {
            let i0 = if i < p { i } else { i + 1 };
            assert(ao[i0].1.spec_valid());
        }
    }
    lemma_get_from_entries(bo, id);
    assert forall|j: int| 0 <= j < bo.len() implies bo[j].0 != id by {
        let j0 = if j < p { j } else { j + 1 };
        if j0 < p {
            assert(ao[j0].0.0 < ao[p].0.0);
        } else {
            assert(ao[p].0.0 < ao[j0].0.0);
        }
    }
    assert forall|other: SpatialObjectId| other != id implies #[trigger] get_in(bo, other) == get_in(ao, other) by {
        lemma_get_from_entries(ao, other);
        lemma_get_from_entries(bo, other);
        match get_in(ao, other) {
            Some(x) => {
                let j = choose|j: int| 0 <= j < ao.len() && ao[j] == (other, x);
                assert(j != p);
                let k = if j < p { j } else { j - 1 };
                assert(bo[k] == (other, x));
                lemma_entry_get(bo, k);
            },
            None => {
                assert forall|j: int| 0 <= j < bo.len() implies bo[j].0 != other by {
                    let j0 = if j < p { j } else { j + 1 };
                    assert(ao[j0].0 != other);
                }
            },
        }
    }
}

} // verus!
