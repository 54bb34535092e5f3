//! Context-scoped generational handles and the bounded slot arena that issues them.
//!
//! A handle names a context, a slot and the slot's generation. Removing a value
//! bumps the generation so stale handles are refused; a slot whose generation
//! cannot be bumped any further is retired for good.
use vstd::prelude::*;
use core::marker::PhantomData;
use crate::kernel::error::{ErrorCategory, ErrorDetail, KernelError};

verus! {

/// Identity of the context that owns a handle.
#[derive(Clone, Copy, Debug, PartialEq, Eq, Hash, Structural)]
pub struct ContextKey(pub u64);

impl ContextKey {
    pub fn new(raw: u64) -> (k: Self)
        ensures
            k.0 == raw,
    {
        ContextKey(raw)
    }

    pub fn raw(self) -> (r: u64)
        ensures
            r == self.0,
    {
        self.0
    }
}

/// Index of a slot inside one arena.
#[derive(Clone, Copy, Debug, PartialEq, Eq, Hash, Structural)]
pub struct SlotIndex(pub u32);

impl SlotIndex {
    pub fn new(raw: u32) -> (s: Self)
        ensures
            s.0 == raw,
    {
        SlotIndex(raw)
    }

    pub fn raw(self) -> (r: u32)
        ensures
            r == self.0,
    {
        self.0
    }
}

/// Reuse counter of a slot; starts at 1.
#[derive(Clone, Copy, Debug, PartialEq, Eq, Hash, Structural)]
pub struct Generation(pub u32);

impl Generation {
    pub fn new(raw: u32) -> (g: Self)
        ensures
            g.0 == raw,
    {
        Generation(raw)
    }

    pub fn raw(self) -> (r: u32)
        ensures
            r == self.0,
    {
        self.0
    }
}

/// Context + slot + generation identity of a handle.
#[derive(Clone, Copy, Debug, PartialEq, Eq, Hash, Structural)]
pub struct HandleKey {
    pub context: ContextKey,
    pub slot: SlotIndex,
    pub generation: Generation,
}

/// A typed handle to a value of type `T` held by a [`HandleArena`].
pub struct Handle<T> {
    key: HandleKey,
    marker: PhantomData<T>,
}

impl<T> Clone for Handle<T> {
    fn clone(&self) -> (h: Self)
        ensures
            h == *self,
    {
        Handle { key: self.key, marker: PhantomData }
    }
}

impl<T> Copy for Handle<T> {
}

impl<T> Handle<T> {
    pub closed spec fn spec_key(self) -> HandleKey {
        self.key
    }

    pub fn from_key(key: HandleKey) -> (h: Self)
        ensures
            h.spec_key() == key,
    {
        Handle { key, marker: PhantomData }
    }

    pub fn key(self) -> (k: HandleKey)
        ensures
            k == self.spec_key(),
    {
        self.key
    }
}

struct Slot<T> {
    generation: u32,
    value: Option<T>,
}

/// Bounded slots and a free list. The slot count is fixed at construction.
pub struct HandleArena<T> {
    context: ContextKey,
    slots: Vec<Slot<T>>,
    free: Vec<u32>,
    retired: u32,
}

/// Number of occupied slots among the first `n` of `gens`/`vals`.
pub open spec fn occupied_prefix<T>(vals: Seq<Option<T>>, n: int) -> nat
    decreases n,
{
    if n <= 0 {
        0
    } else {
        occupied_prefix(vals, n - 1) + if vals[n - 1] is Some { 1nat } else { 0nat }
    }
}

/// Live values in slot order.
pub open spec fn live_values<T>(vals: Seq<Option<T>>) -> Seq<T>
    decreases vals.len(),
{
    if vals.len() == 0 {
        Seq::empty()
    } else {
        let r = live_values(vals.drop_last());
        match vals.last() {
            Some(v) => r.push(v),
            None => r,
        }
    }
}

pub open spec fn occupied_count<T>(vals: Seq<Option<T>>) -> nat {
    occupied_prefix(vals, vals.len() as int)
}

pub proof fn lemma_occupied_prefix_bound<T>(vals: Seq<Option<T>>, n: int)
    requires
        0 <= n <= vals.len(),
    ensures
        occupied_prefix(vals, n) <= n,
    decreases n,
{
    if n > 0 {
        lemma_occupied_prefix_bound(vals, n - 1);
    }
}

pub proof fn lemma_occupied_update<T>(vals: Seq<Option<T>>, i: int, x: Option<T>, n: int)
    requires
        0 <= i < vals.len(),
        0 <= n <= vals.len(),
    ensures
        occupied_prefix(vals.update(i, x), n) + (if i < n && vals[i] is Some { 1int } else { 0int })
            == occupied_prefix(vals, n) + (if i < n && x is Some { 1int } else { 0int }),
    decreases n,
{
    if n > 0 {
        lemma_occupied_update(vals, i, x, n - 1);
    }
}

/// `b` is `a` with `value` stored in `a`'s most recently freed slot, under `key`.
pub open spec fn inserted_into<T>(a: HandleArena<T>, b: HandleArena<T>, value: T, key: HandleKey) -> bool {
    let idx = a.free_list().last();
    &&& a.free_list().len() > 0
    &&& (idx as int) < a.values().len()
    &&& key == (HandleKey {
        context: a.context_key(),
        slot: SlotIndex(idx),
        generation: Generation(a.generations()[idx as int]),
    })
    &&& b.values() == a.values().update(idx as int, Some(value))
    &&& b.free_list() == a.free_list().drop_last()
    &&& b.spec_len() == a.spec_len() + 1
    &&& b.spec_check(key) is None
}

/// `b` is `a` with the live value under `key` taken out: its slot moves to the next
/// generation and back on the free list, or is retired for good when the generation
/// is exhausted.
pub open spec fn removed_from<T>(a: HandleArena<T>, b: HandleArena<T>, key: HandleKey) -> bool {
    let idx = key.slot.0;
    let g = a.generations()[idx as int];
    &&& b.values() == a.values().update(idx as int, None)
    &&& b.spec_len() + 1 == a.spec_len()
    &&& b.spec_check(key) == Some(ErrorCategory::AlreadyReleased)
    &&& if g < u32::MAX {
        &&& b.generations() == a.generations().update(idx as int, (g + 1) as u32)
        &&& b.free_list() == a.free_list().push(idx)
        &&& b.retired_count() == a.retired_count()
    } else {
        &&& b.generations() == a.generations()
        &&& b.free_list() == a.free_list()
        &&& b.retired_count() == a.retired_count() + 1
    }
}

/// A released handle is never honoured again: once its value is removed, storing a
/// new value in the same slot gives that value a different handle, and the old handle
/// is refused as outdated.
pub proof fn law_released_handle_never_resolves<T>(
    a: HandleArena<T>,
    b: HandleArena<T>,
    c: HandleArena<T>,
    key: HandleKey,
    value: T,
    key2: HandleKey,
)
    requires
        a.wf(),
        a.spec_check(key) is None,
        removed_from(a, b, key),
        b.context_key() == a.context_key(),
        inserted_into(b, c, value, key2),
        c.context_key() == b.context_key(),
        c.generations() == b.generations(),
        key2.slot == key.slot,
    ensures
        key2 != key,
        c.spec_check(key) == Some(ErrorCategory::InvalidHandle),
{
    a.lemma_free_slots_empty();
    let idx = key.slot.0;
    assert(a.generations()[idx as int] == key.generation.0);
    assert(a.values()[idx as int] is Some);
    if a.generations()[idx as int] == u32::MAX {
        assert(b.free_list() == a.free_list());
        let last = (b.free_list().len() - 1) as int;
        assert(b.free_list()[last] == idx);
        assert(a.values()[idx as int] is Some);
    }
}

impl<T> HandleArena<T> {
    /// Generation of every slot, in slot order.
    pub closed spec fn generations(&self) -> Seq<u32> {
        self.slots@.map_values(|s: Slot<T>| s.generation)
    }

    /// Content of every slot, in slot order.
    pub closed spec fn values(&self) -> Seq<Option<T>> {
        self.slots@.map_values(|s: Slot<T>| s.value)
    }

    /// Free slot indices; the last one is reused first.
    pub closed spec fn free_list(&self) -> Seq<u32> {
        self.free@
    }

    pub closed spec fn retired_count(&self) -> nat {
        self.retired as nat
    }

    pub closed spec fn context_key(&self) -> ContextKey {
        self.context
    }

    pub closed spec fn wf(&self) -> bool {
        &&& self.slots@.len() <= u32::MAX
        &&& forall|i: int| 0 <= i < self.free@.len() ==> (#[trigger] self.free@[i]) < self.slots@.len()
        &&& forall|i: int|
            0 <= i < self.free@.len() ==> self.slots@[#[trigger] self.free@[i] as int].value is None
        &&& forall|i: int, j: int|
            0 <= i < j < self.free@.len() ==> #[trigger] self.free@[i] != #[trigger] self.free@[j]
        &&& self.free@.len() + self.retired + occupied_count(self.values()) == self.slots@.len()
    }

    /// Free slots hold no value.
    pub proof fn lemma_free_slots_empty(&self)
        requires
            self.wf(),
        ensures
            forall|i: int| 0 <= i < self.free_list().len() ==> (#[trigger] self.free_list()[i]) < self.values().len()
                && self.values()[self.free_list()[i] as int] is None,
    {
    }

    /// Number of live values.
    pub open spec fn spec_len(&self) -> nat {
        occupied_count(self.values())
    }

    pub fn with_capacity(context: ContextKey, capacity: u32) -> (a: Self)
        ensures
            a.wf(),
            a.context_key() == context,
            a.generations().len() == capacity,
            a.values().len() == capacity,
            a.spec_len() == 0,
            forall|i: int| 0 <= i < capacity ==> a.generations()[i] == 1,
            forall|i: int| 0 <= i < capacity ==> a.values()[i] is None,
            a.free_list().len() == capacity,
            forall|i: int| 0 <= i < capacity ==> a.free_list()[i] == capacity - 1 - i,
            a.retired_count() == 0,
    {
        let mut slots: Vec<Slot<T>> = Vec::new();
        let mut i: u32 = 0;
        while i < capacity
            invariant
                i <= capacity,
                slots@.len() == i,
                forall|j: int| 0 <= j < i ==> slots@[j].generation == 1 && slots@[j].value is None,
            decreases capacity - i,
        {
            slots.push(Slot { generation: 1, value: None });
            i = i + 1;
        }
        let mut free: Vec<u32> = Vec::new();
        let mut k: u32 = capacity;
        while k > 0
            invariant
                k <= capacity,
                free@.len() == capacity - k,
                forall|j: int| 0 <= j < free@.len() ==> free@[j] == capacity - 1 - j,
            decreases k,
        {
            k = k - 1;
            free.push(k);
        }
        let a = HandleArena { context, slots, free, retired: 0 };
        proof {
            let vals = a.values();
            assert forall|n: int| 0 <= n <= vals.len() implies occupied_prefix(vals, n) == 0 by {
                lemma_all_empty(vals, n);
            }
        }
        a
    }

    pub fn capacity(&self) -> (c: u32)
        requires
            self.wf(),
        ensures
            c == self.generations().len(),
    {
        self.slots.len() as u32
    }

    /// Number of occupied slots.
    pub fn len(&self) -> (n: u32)
        requires
            self.wf(),
        ensures
            n == self.spec_len(),
    {
        (self.slots.len() - self.free.len() - self.retired as usize) as u32
    }

    pub fn retired_slots(&self) -> (n: u32)
        ensures
            n == self.retired_count(),
    {
        self.retired
    }

    /// Store `value` in the most recently freed slot.
    pub fn insert(&mut self, value: T) -> (r: Result<Handle<T>, KernelError>)
        requires
            old(self).wf(),
        ensures
            final(self).wf(),
            final(self).context_key() == old(self).context_key(),
            final(self).retired_count() == old(self).retired_count(),
            final(self).generations() == old(self).generations(),
            old(self).free_list().len() == 0 <==> r is Err,
            r matches Err(e) ==> {
                &&& e.category == ErrorCategory::CapacityExceeded
                &&& e.detail == (ErrorDetail::LimitExceeded {
                    limit: old(self).generations().len() as u64,
                    requested: (old(self).generations().len() + 1) as u64,
                })
                &&& final(self).values() == old(self).values()
                &&& final(self).free_list() == old(self).free_list()
            },
            r matches Ok(h) ==> inserted_into(*old(self), *final(self), value, h.spec_key()),
    {
        if self.free.len() == 0 {
            let limit = self.slots.len() as u64;
            return Err(
                KernelError::new(
                    ErrorCategory::CapacityExceeded,
                    ErrorDetail::LimitExceeded { limit, requested: limit + 1 },
                ),
            );
        }
        let index = self.free.pop().unwrap();
        let ghost old_vals = self.values();
        let generation = self.slots[index as usize].generation;
        self.slots.set(index as usize, Slot { generation, value: Some(value) });
        proof {
            lemma_occupied_update(old_vals, index as int, Some(value), old_vals.len() as int);
            assert(self.values() =~= old_vals.update(index as int, Some(value)));
            assert(self.generations() =~= old(self).generations());
            assert forall|i: int| 0 <= i < self.free@.len() implies self.slots@[
                #[trigger] self.free@[i] as int].value is None by {
                assert(old(self).free@[i] != old(self).free@[old(self).free@.len() - 1]);
            }
        }
        Ok(Handle::from_key(HandleKey {
            context: self.context,
            slot: SlotIndex::new(index),
            generation: Generation::new(generation),
        }))
    }

    /// Which check refuses `key`, in the order context, bounds, occupancy, generation.
    pub open spec fn spec_check(&self, key: HandleKey) -> Option<ErrorCategory> {
        if key.context != self.context_key() {
            Some(ErrorCategory::WrongContext)
        } else if key.slot.0 >= self.generations().len() {
            Some(ErrorCategory::InvalidHandle)
        } else if self.values()[key.slot.0 as int] is None {
            Some(ErrorCategory::AlreadyReleased)
        } else if self.generations()[key.slot.0 as int] != key.generation.0 {
            Some(ErrorCategory::InvalidHandle)
        } else {
            None
        }
    }

    /// Resolve a live slot. Context is checked before bounds, occupancy, or generation.
    pub fn get(&self, handle: Handle<T>) -> (r: Result<&T, KernelError>)
        requires
            self.wf(),
        ensures
            match self.spec_check(handle.spec_key()) {
                Some(c) => r matches Err(e) && e.category == c && e.detail == ErrorDetail::NoDetail,
                None => r matches Ok(v) && self.values()[handle.spec_key().slot.0 as int]
                    == Some(*v),
            },
    {
        let key = handle.key();
        if key.context != self.context {
            return Err(KernelError::new(ErrorCategory::WrongContext, ErrorDetail::NoDetail));
        }
        if key.slot.raw() as usize >= self.slots.len() {
            return Err(KernelError::new(ErrorCategory::InvalidHandle, ErrorDetail::NoDetail));
        }
        let slot = &self.slots[key.slot.raw() as usize];
        match &slot.value {
            None => Err(KernelError::new(ErrorCategory::AlreadyReleased, ErrorDetail::NoDetail)),
            Some(v) => {
                if slot.generation != key.generation.raw() {
                    Err(KernelError::new(ErrorCategory::InvalidHandle, ErrorDetail::NoDetail))
                } else {
                    Ok(v)
                }
            },
        }
    }

    /// Take the value out of a live slot and bump its generation, or retire the
    /// slot when the generation is exhausted.
    pub fn remove(&mut self, handle: Handle<T>) -> (r: Result<T, KernelError>)
        requires
            old(self).wf(),
        ensures
            final(self).wf(),
            final(self).context_key() == old(self).context_key(),
            final(self).generations().len() == old(self).generations().len(),
            match old(self).spec_check(handle.spec_key()) {
                Some(c) => {
                    &&& r matches Err(e) && e.category == c && e.detail == ErrorDetail::NoDetail
                    &&& final(self).values() == old(self).values()
                    &&& final(self).generations() == old(self).generations()
                    &&& final(self).free_list() == old(self).free_list()
                    &&& final(self).retired_count() == old(self).retired_count()
                },
                None => {
                    &&& r matches Ok(v) && old(self).values()[handle.spec_key().slot.0 as int] == Some(v)
                    &&& removed_from(*old(self), *final(self), handle.spec_key())
                },
            },
    {
        let key = handle.key();
        if key.context != self.context {
            return Err(KernelError::new(ErrorCategory::WrongContext, ErrorDetail::NoDetail));
        }
        let index = key.slot.raw();
        if index as usize >= self.slots.len() {
            return Err(KernelError::new(ErrorCategory::InvalidHandle, ErrorDetail::NoDetail));
        }
        if self.slots[index as usize].value.is_none() {
            return Err(KernelError::new(ErrorCategory::AlreadyReleased, ErrorDetail::NoDetail));
        }
        if self.slots[index as usize].generation != key.generation.raw() {
            return Err(KernelError::new(ErrorCategory::InvalidHandle, ErrorDetail::NoDetail));
        }
        let ghost old_vals = self.values();
        let generation = self.slots[index as usize].generation;
        let value = self.take_slot(index as usize, generation);
        proof {
            lemma_occupied_update(old_vals, index as int, None, old_vals.len() as int);
        }
        proof {
            assert forall|i: int| 0 <= i < self.free@.len() implies #[trigger] self.free@[i]
                != index by {}
            assert(self.values().len() == old_vals.len());
            assert(self.slots@.len() == old(self).slots@.len());
            assert forall|i: int| 0 <= i < self.free@.len() implies self.slots@[
                #[trigger] self.free@[i] as int].value is None by {
                let k = self.free@[i] as int;
                assert(old(self).slots@[k].value is None);
                assert(old_vals[k] is None);
                assert(self.values()[k] == old_vals[k]);
                assert(self.slots@[k].value == self.values()[k]);
            }
        }
        if generation < u32::MAX {
            self.free.push(index);
            proof {
                assert forall|i: int| 0 <= i < self.free@.len() implies self.slots@[
                    #[trigger] self.free@[i] as int].value is None by {
                    let k = self.free@[i] as int;
                    if i < self.free@.len() - 1 {
                        assert(self.free@[i] == old(self).free@[i]);
                    } else {
                        assert(self.values()[index as int] is None);
                    }
                    assert(self.slots@[k].value == self.values()[k]);
                }
            }
        } else {
            self.retired = self.retired + 1;
            proof {
                assert(self.generations() =~= old(self).generations());
            }
        }
        value
    }

    /// Empty slot `index` and set its generation to the successor of `generation`
    /// (unchanged when exhausted); the free list and retired count are left to the caller.
    fn take_slot(&mut self, index: usize, generation: u32) -> (r: Result<T, KernelError>)
        requires
            index < old(self).slots@.len(),
            old(self).slots@[index as int].value is Some,
            old(self).slots@[index as int].generation == generation,
        ensures
            r matches Ok(v) && old(self).values()[index as int] == Some(v),
            final(self).context == old(self).context,
            final(self).free == old(self).free,
            final(self).retired == old(self).retired,
            final(self).values() == old(self).values().update(index as int, None),
            final(self).generations() == old(self).generations().update(
                index as int,
                if generation < u32::MAX { (generation + 1) as u32 } else { generation },
            ),
    {
        let next = if generation < u32::MAX { generation + 1 } else { generation };
        let mut slot = Slot { generation: next, value: None };
        std::mem::swap(&mut slot, &mut self.slots[index]);
        proof {
            assert(self.values() =~= old(self).values().update(index as int, None));
            assert(self.generations() =~= old(self).generations().update(index as int, next));
        }
        match slot.value {
            Some(v) => Ok(v),
            None => Err(KernelError::new(ErrorCategory::InternalInvariant, ErrorDetail::NoDetail)),
        }
    }

    /// Take every live value out, in slot order; each emptied slot gets a fresh
    /// generation, or is retired when its generation is exhausted.
    pub fn drain_occupied(&mut self) -> (r: Vec<T>)
        requires
            old(self).wf(),
        ensures
            final(self).wf(),
            final(self).context_key() == old(self).context_key(),
            final(self).generations().len() == old(self).generations().len(),
            r@ == live_values(old(self).values()),
            final(self).spec_len() == 0,
            forall|i: int| 0 <= i < final(self).values().len() ==> #[trigger] final(self).values()[i] is None,
            forall|i: int|
                0 <= i < old(self).generations().len() ==> #[trigger] final(self).generations()[i] == if old(
                    self,
                ).values()[i] is Some && old(self).generations()[i] < u32::MAX {
                    (old(self).generations()[i] + 1) as u32
                } else {
                    old(self).generations()[i]
                },
    {
        let ghost vals0 = self.values();
        let ghost gens0 = self.generations();
        let n = self.slots.len();
        let mut drained: Vec<T> = Vec::new();
        let mut i: usize = 0;
        while i < n
            invariant
                self.wf(),
                self.context == old(self).context,
                n == self.slots@.len(),
                vals0.len() == n,
                gens0.len() == n,
                i <= n,
                drained@ == live_values(vals0.take(i as int)),
                forall|j: int| 0 <= j < i ==> #[trigger] self.values()[j] is None,
                forall|j: int| i <= j < n ==> #[trigger] self.values()[j] == vals0[j],
                forall|j: int| i <= j < n ==> #[trigger] self.generations()[j] == gens0[j],
                forall|j: int|
                    0 <= j < i ==> #[trigger] self.generations()[j] == if vals0[j] is Some && gens0[j] < u32::MAX {
                        (gens0[j] + 1) as u32
                    } else {
                        gens0[j]
                    },
            decreases n - i,
        {
            let generation = self.slots[i].generation;
            let ghost old_vals = self.values();
            let ghost old_gens = self.generations();
            let ghost old_free = self.free@;
            assert(vals0.take(i as int + 1).drop_last() =~= vals0.take(i as int));
            assert(vals0.take(i as int + 1).last() == vals0[i as int]);
            if self.slots[i].value.is_some() {
                let next = if generation < u32::MAX {
                    generation + 1
                } else {
                    generation
                };
                let mut slot = Slot { generation: next, value: None };
                std::mem::swap(&mut slot, &mut self.slots[i]);
                proof {
                    lemma_occupied_update(old_vals, i as int, None, old_vals.len() as int);
                    assert(self.values() =~= old_vals.update(i as int, None));
                    assert(self.generations() =~= old_gens.update(i as int, next));
                    assert forall|k: int| 0 <= k < old_free.len() implies old_free[k] != i as u32 by {
                        assert(old_vals[old_free[k] as int] is None);
                    }
                }
                if generation < u32::MAX {
                    self.free.push(i as u32);
                } else {
                    self.retired = self.retired + 1;
                }
                match slot.value {
                    Some(v) => {
                        drained.push(v);
                    },
                    None => {},
                }
            }
            proof {
                assert(old_gens[i as int] == gens0[i as int]);
                assert(old_vals[i as int] == vals0[i as int]);
                assert forall|j: int| 0 <= j < i + 1 implies #[trigger] self.generations()[j] == if vals0[j] is Some
                    && gens0[j] < u32::MAX {
                    (gens0[j] + 1) as u32
                } else {
                    gens0[j]
                } by {
                    if j < i {
                        assert(self.generations()[j] == old_gens[j]);
                    }
                }
            }
            i = i + 1;
        }
        proof {
            assert(vals0.take(n as int) =~= vals0);
            lemma_all_empty(self.values(), n as int);
        }
        drained
    }

    /// Test hook: set a slot's generation without cycling insert/remove.
    pub fn force_generation(&mut self, index: u32, generation: Generation)
        requires
            old(self).wf(),
            index < old(self).generations().len(),
        ensures
            final(self).wf(),
            final(self).context_key() == old(self).context_key(),
            final(self).values() == old(self).values(),
            final(self).free_list() == old(self).free_list(),
            final(self).retired_count() == old(self).retired_count(),
            final(self).generations() == old(self).generations().update(index as int, generation.0),
    {
        let ghost old_vals = self.values();
        let mut slot = Slot { generation: generation.raw(), value: None };
        std::mem::swap(&mut slot, &mut self.slots[index as usize]);
        let v = slot.value;
        self.slots.set(index as usize, Slot { generation: generation.raw(), value: v });
        proof {
            assert(self.values() =~= old_vals);
            assert(self.generations() =~= old(self).generations().update(index as int, generation.0));
        }
    }
}

pub proof fn lemma_all_empty<T>(vals: Seq<Option<T>>, n: int)
    requires
        0 <= n <= vals.len(),
        forall|i: int| 0 <= i < vals.len() ==> vals[i] is None,
    ensures
        occupied_prefix(vals, n) == 0,
    decreases n,
{
    if n > 0 {
        lemma_all_empty(vals, n - 1);
    }
}

} // verus!
