//! Context-owned definition registry.
//!
//! Compiles specs into shared `Arc<CompiledDefinition>` values held in a kernel handle
//! arena. `lease` hands out clones that stay valid after `release`.
use std::sync::Arc;
use vstd::prelude::*;
use crate::hfsm::compile::{CompiledDefinition, compile, compile_failure};
use crate::hfsm::definition::DefinitionSpec;
use crate::hfsm::error::{HfsmError, HfsmResult};
use crate::hfsm::ids::HfsmLimits;
use crate::kernel::context::{CancelReason, Deadline, QuiesceReport, QuiesceState};
use crate::kernel::error::{ErrorCategory, KernelError, KernelResult};
use crate::kernel::handle::{ContextKey, Handle, HandleArena, HandleKey};

verus! {

/// Typed handle to a compiled definition owned by one `HfsmDefinitionRegistry`:
/// context, slot and generation.
#[derive(Clone, Copy, Debug, PartialEq, Eq, Structural)]
pub struct DefinitionHandle(HandleKey);

impl DefinitionHandle {
    pub closed spec fn spec_key(self) -> HandleKey {
        self.0
    }

    /// Context + slot + generation identity (kernel handle rules apply).
    pub fn key(self) -> (k: HandleKey)
        ensures
            k == self.spec_key(),
    {
        self.0
    }
}

/// Read-only summary of a registered definition.
#[derive(Clone, Copy, Debug, PartialEq, Eq, Structural)]
pub struct DefinitionInfo {
    pub fingerprint: u64,
    pub state_count: u32,
    pub transition_count: u32,
    pub max_depth: u32,
    pub max_plan_actions: u32,
}

pub open spec fn info_of(def: CompiledDefinition) -> DefinitionInfo {
    DefinitionInfo {
        fingerprint: crate::hfsm::compile::def_fingerprint(def),
        state_count: def.spec_states().len() as u32,
        transition_count: def.spec_transitions().len() as u32,
        max_depth: crate::hfsm::compile::max_depth_of(def.spec_states()) as u32,
        max_plan_actions: crate::hfsm::compile::max_plan(
            def.spec_states(),
            def.spec_transitions(),
            def.spec_root(),
        ) as u32,
    }
}

/// `def` holds the semantic content of `spec`.
pub open spec fn compiled_from(def: CompiledDefinition, spec: DefinitionSpec) -> bool {
    &&& def.spec_states() == crate::hfsm::compile::snodes(spec.states@)
    &&& def.spec_transitions() == crate::hfsm::compile::tnodes(spec.transitions@)
    &&& def.spec_root() == spec.initial
}

impl DefinitionInfo {
    fn of(def: &CompiledDefinition) -> (i: Self)
        ensures
            i == info_of(*def),
    {
        DefinitionInfo {
            fingerprint: def.fingerprint(),
            state_count: def.state_count(),
            transition_count: def.transition_count(),
            max_depth: def.max_depth(),
            max_plan_actions: def.max_plan_actions(),
        }
    }
}

/// Context resource (`name = "hfsm"`) holding the compiled definitions of one context.
pub struct HfsmDefinitionRegistry {
    context: ContextKey,
    limits: HfsmLimits,
    arena: HandleArena<Arc<CompiledDefinition>>,
    closing: bool,
    destroyed: bool,
}

fn handle_err(err: KernelError) -> (e: HfsmError)
    ensures
        e == HfsmError::Handle(err.category),
{
    HfsmError::Handle(err.category())
}

impl HfsmDefinitionRegistry {
    pub closed spec fn spec_arena(&self) -> HandleArena<Arc<CompiledDefinition>> {
        self.arena
    }

    pub closed spec fn spec_context(&self) -> ContextKey {
        self.context
    }

    pub closed spec fn spec_limits(&self) -> HfsmLimits {
        self.limits
    }

    pub closed spec fn spec_closing(&self) -> bool {
        self.closing
    }

    pub closed spec fn spec_destroyed(&self) -> bool {
        self.destroyed
    }

    pub closed spec fn wf(&self) -> bool {
        self.arena.wf() && self.arena.context_key() == self.context
    }

    /// Why `handle` is refused: destroyed first, then the arena's own checks.
    pub open spec fn spec_refusal(&self, handle: DefinitionHandle) -> Option<HfsmError> {
        if self.spec_destroyed() {
            Some(HfsmError::Handle(ErrorCategory::ContextDestroyed))
        } else {
            match self.spec_arena().spec_check(handle.spec_key()) {
                Some(c) => Some(HfsmError::Handle(c)),
                None => None,
            }
        }
    }

    /// The definition `handle` resolves to (when it is not refused).
    pub open spec fn spec_definition(&self, handle: DefinitionHandle) -> CompiledDefinition {
        *self.spec_arena().values()[handle.spec_key().slot.0 as int]->0
    }

    pub fn new(context: ContextKey, capacity: u32, limits: HfsmLimits) -> (r: Self)
        ensures
            r.wf(),
            r.spec_context() == context,
            r.spec_limits() == limits,
            r.spec_arena().generations().len() == capacity,
            r.spec_arena().spec_len() == 0,
            !r.spec_closing(),
            !r.spec_destroyed(),
    {
        let arena = HandleArena::with_capacity(context, capacity);
        HfsmDefinitionRegistry { context, limits, arena, closing: false, destroyed: false }
    }

    pub fn context(&self) -> (k: ContextKey)
        ensures
            k == self.spec_context(),
    {
        self.context
    }

    pub fn limits(&self) -> (l: &HfsmLimits)
        ensures
            *l == self.spec_limits(),
    {
        &self.limits
    }

    /// Compile and store. Refused once closing (`ContextClosing`) or destroyed.
    pub fn create(&mut self, spec: &DefinitionSpec) -> (r: HfsmResult<DefinitionHandle>)
        requires
            old(self).wf(),
            spec.states@.len() <= u32::MAX,
            spec.transitions@.len() <= u32::MAX,
        ensures
            final(self).wf(),
            final(self).spec_context() == old(self).spec_context(),
            final(self).spec_limits() == old(self).spec_limits(),
            final(self).spec_closing() == old(self).spec_closing(),
            final(self).spec_destroyed() == old(self).spec_destroyed(),
            old(self).spec_destroyed() ==> r == Err::<DefinitionHandle, HfsmError>(
                HfsmError::Handle(ErrorCategory::ContextDestroyed),
            ),
            !old(self).spec_destroyed() && old(self).spec_closing() ==> r == Err::<DefinitionHandle, HfsmError>(
                HfsmError::Handle(ErrorCategory::ContextClosing),
            ),
            !old(self).spec_destroyed() && !old(self).spec_closing() ==> match compile_failure(
                *spec,
                old(self).spec_limits(),
            ) {
                Some(e) => r == Err::<DefinitionHandle, HfsmError>(HfsmError::Compile(e)),
                None => if old(self).spec_arena().free_list().len() == 0 {
                    r == Err::<DefinitionHandle, HfsmError>(HfsmError::Handle(ErrorCategory::CapacityExceeded))
                } else {
                    r matches Ok(h) && {
                        let slot = h.spec_key().slot.0 as int;
                        &&& final(self).spec_refusal(h) is None
                        &&& compiled_from(final(self).spec_definition(h), *spec)
                        &&& final(self).spec_arena().spec_len() == old(self).spec_arena().spec_len() + 1
                        &&& h.spec_key().context == old(self).spec_context()
                        &&& 0 <= slot < old(self).spec_arena().values().len()
                        &&& old(self).spec_arena().values()[slot] is None
                        &&& final(self).spec_arena().values().len() == old(self).spec_arena().values().len()
                        &&& forall|i: int| 0 <= i < old(self).spec_arena().values().len() && i != slot
                            ==> #[trigger] final(self).spec_arena().values()[i] == old(self).spec_arena().values()[i]
                        &&& final(self).spec_arena().generations() == old(self).spec_arena().generations()
                    }
                },
            },
            r is Err ==> final(self).spec_arena().values() == old(self).spec_arena().values()
                && final(self).spec_arena().generations() == old(self).spec_arena().generations(),
    {
        if self.destroyed {
            return Err(HfsmError::Handle(ErrorCategory::ContextDestroyed));
        }
        if self.closing {
            return Err(HfsmError::Handle(ErrorCategory::ContextClosing));
        }
        let compiled = match compile(spec, &self.limits) {
            Ok(c) => Arc::new(c),
            Err(e) => return Err(HfsmError::Compile(e)),
        };
        let ghost cdef = compiled;
        proof {
            self.arena.lemma_free_slots_empty();
            if self.arena.free_list().len() > 0 {
                assert(self.arena.free_list()[self.arena.free_list().len() - 1] == self.arena.free_list().last());
            }
        }
        match self.arena.insert(compiled) {
            Ok(handle) => {
                let h = DefinitionHandle(handle.key());
                proof {
                    assert(self.arena.values()[h.spec_key().slot.0 as int] == Some(cdef));
                    assert(self.spec_definition(h) == *cdef);
                }
                Ok(h)
            },
            Err(e) => Err(handle_err(e)),
        }
    }

    /// Shared read-only lease; still allowed while closing.
    pub fn lease(&self, handle: DefinitionHandle) -> (r: HfsmResult<Arc<CompiledDefinition>>)
        requires
            self.wf(),
        ensures
            match self.spec_refusal(handle) {
                Some(e) => r == Err::<Arc<CompiledDefinition>, HfsmError>(e),
                None => r matches Ok(a) && *a == self.spec_definition(handle),
            },
    {
        if self.destroyed {
            return Err(HfsmError::Handle(ErrorCategory::ContextDestroyed));
        }
        match self.arena.get(Handle::from_key(handle.0)) {
            Ok(def) => Ok(Arc::clone(def)),
            Err(e) => Err(handle_err(e)),
        }
    }

    pub fn inspect(&self, handle: DefinitionHandle) -> (r: HfsmResult<DefinitionInfo>)
        requires
            self.wf(),
        ensures
            match self.spec_refusal(handle) {
                Some(e) => r == Err::<DefinitionInfo, HfsmError>(e),
                None => r == Ok::<DefinitionInfo, HfsmError>(info_of(self.spec_definition(handle))),
            },
    {
        if self.destroyed {
            return Err(HfsmError::Handle(ErrorCategory::ContextDestroyed));
        }
        match self.arena.get(Handle::from_key(handle.0)) {
            Ok(def) => Ok(DefinitionInfo::of(def)),
            Err(e) => Err(handle_err(e)),
        }
    }

    /// Drop the registry's reference; leases already handed out stay valid.
    pub fn release(&mut self, handle: DefinitionHandle) -> (r: HfsmResult<()>)
        requires
            old(self).wf(),
        ensures
            final(self).wf(),
            final(self).spec_context() == old(self).spec_context(),
            final(self).spec_limits() == old(self).spec_limits(),
            final(self).spec_closing() == old(self).spec_closing(),
            final(self).spec_destroyed() == old(self).spec_destroyed(),
            match old(self).spec_refusal(handle) {
                Some(e) => r == Err::<(), HfsmError>(e) && final(self).spec_arena().values() == old(
                    self,
                ).spec_arena().values() && final(self).spec_arena().generations() == old(self).spec_arena().generations(),
                None => r is Ok && final(self).spec_refusal(handle) == Some(
                    HfsmError::Handle(ErrorCategory::AlreadyReleased),
                ) && final(self).spec_arena().spec_len() + 1 == old(self).spec_arena().spec_len(),
            },
    {
        if self.destroyed {
            return Err(HfsmError::Handle(ErrorCategory::ContextDestroyed));
        }
        match self.arena.remove(Handle::from_key(handle.0)) {
            Ok(_removed) => Ok(()),
            Err(e) => Err(handle_err(e)),
        }
    }

    /// Number of live definitions.
    pub fn len(&self) -> (n: u32)
        requires
            self.wf(),
        ensures
            n == self.spec_arena().spec_len(),
    {
        self.arena.len()
    }

    pub fn is_empty(&self) -> (b: bool)
        requires
            self.wf(),
        ensures
            b == (self.spec_arena().spec_len() == 0),
    {
        self.len() == 0
    }

    pub fn name(&self) -> (n: &'static str)
        ensures
            n@ == "hfsm"@,
    {
        "hfsm"
    }

    /// Refuse new definitions from now on; leases stay allowed.
    pub fn cancel_requested(&mut self, reason: CancelReason)
        ensures
            final(self).spec_closing(),
            final(self).spec_destroyed() == old(self).spec_destroyed(),
            final(self).spec_arena() == old(self).spec_arena(),
            final(self).spec_context() == old(self).spec_context(),
            final(self).spec_limits() == old(self).spec_limits(),
    {
        let _ = reason;
        self.closing = true;
    }

    /// Nothing runs inside the registry, so it is quiesced at once.
    pub fn quiesce(&self, deadline: Deadline) -> (r: KernelResult<QuiesceReport>)
        ensures
            r == Ok::<QuiesceReport, KernelError>(QuiesceReport { state: QuiesceState::Quiesced }),
    {
        let _ = deadline;
        Ok(QuiesceReport { state: QuiesceState::Quiesced })
    }

    /// Drop every definition and refuse everything afterwards; idempotent.
    pub fn destroy(&mut self) -> (r: KernelResult<()>)
        requires
            old(self).wf(),
        ensures
            r is Ok,
            final(self).wf(),
            final(self).spec_destroyed(),
            final(self).spec_closing() == old(self).spec_closing(),
            final(self).spec_arena().spec_len() == 0,
            final(self).spec_context() == old(self).spec_context(),
            final(self).spec_limits() == old(self).spec_limits(),
    {
        self.destroyed = true;
        let _dropped = self.arena.drain_occupied();
        Ok(())
    }
}

} // verus!
