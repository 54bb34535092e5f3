#![allow(unused_imports, dead_code)]

use lumio_core::hfsm::{
    ActionId, ActionPhase, ActionRecord, ActivationSeq, ActiveState, BatchItem, BatchStatus, CompileError,
    CompileErrorKind, CompiledDefinition, DefinitionHandle, DefinitionInfo, DefinitionSpec, DeliveryScope,
    EventKind, GuardFrame, GuardId, GuardValue, HfsmDefinitionRegistry, HfsmError, HfsmLimits, ItemError,
    ItemKind, ItemPlan, Lifecycle, MachineEpoch, MachineKey, Outcome, PlanOutput, Scratch, Snapshot,
    SnapshotError, SnapshotHeader, StateId, StateSpec, StepSeq, TransitionId, TransitionKind, TransitionSpec,
    compile, evaluate_batch, FORMAT_VERSION, SEMANTICS_VERSION,
};
// T28: `HfsmDefinitionRegistry` handle rules and ContextResource lifecycle (contract §9).


use std::sync::Arc;

use lumio_core::kernel::context::{CancelReason, Deadline, QuiesceState};
use lumio_core::kernel::error::ErrorCategory;
use lumio_core::kernel::handle::ContextKey;

fn registry(ctx: u64, capacity: u32) -> HfsmDefinitionRegistry {
    HfsmDefinitionRegistry::new(ContextKey::new(ctx), capacity, HfsmLimits::default())
}

fn assert_handle_err<T: std::fmt::Debug>(
    result: Result<T, HfsmError>,
    expected: ErrorCategory,
    what: &str,
) {
    match result {
        Err(HfsmError::Handle(category)) => {
            assert_eq!(category, expected, "{what}: wrong handle category");
        }
        other => panic!("{what}: expected Handle({expected:?}), got {other:?}"),
    }
}

fn assert_send_sync<T: Send + Sync>() {}

#[test]
fn create_then_inspect_matches_direct_compile() {
    assert_send_sync::<HfsmDefinitionRegistry>();
    assert_send_sync::<DefinitionHandle>();

    let mut reg = registry(1, 4);
    assert_eq!(reg.context(), ContextKey::new(1));
    assert_eq!(*reg.limits(), HfsmLimits::default());
    assert!(reg.is_empty());

    let spec = workflow_spec();
    let direct = compile(&spec, &HfsmLimits::default()).expect("workflow compiles");
    let handle = reg.create(&spec).expect("create workflow");
    assert_eq!(handle.key().context, ContextKey::new(1));
    assert_eq!(reg.len(), 1);
    assert!(!reg.is_empty());

    let info = reg.inspect(handle).expect("inspect");
    assert_eq!(
        info,
        DefinitionInfo {
            fingerprint: direct.fingerprint(),
            state_count: direct.state_count(),
            transition_count: direct.transition_count(),
            max_depth: direct.max_depth(),
            max_plan_actions: direct.max_plan_actions(),
        }
    );

    let leased = reg.lease(handle).expect("lease");
    assert_eq!(leased.fingerprint(), direct.fingerprint());
    assert_eq!(leased.state_count(), direct.state_count());

    let second = reg.create(&spec).expect("second create");
    assert_ne!(second, handle, "distinct slots yield distinct handles");
    assert_eq!(reg.len(), 2);
}

#[test]
fn compile_failure_maps_to_compile_error_and_keeps_len() {
    let mut reg = registry(2, 4);
    let bad = spec(1, Vec::new(), Vec::new());
    match reg.create(&bad) {
        Err(HfsmError::Compile(e)) => assert_eq!(e.kind, CompileErrorKind::EmptyDefinition),
        other => panic!("expected Compile error, got {other:?}"),
    }
    assert_eq!(reg.len(), 0);
}

#[test]
fn foreign_context_handle_is_rejected() {
    let mut a = registry(10, 2);
    let mut b = registry(11, 2);
    let handle = a.create(&workflow_spec()).expect("create on A");

    assert_handle_err(b.lease(handle), ErrorCategory::WrongContext, "lease on B");
    assert_handle_err(
        b.inspect(handle),
        ErrorCategory::WrongContext,
        "inspect on B",
    );
    assert_handle_err(
        b.release(handle),
        ErrorCategory::WrongContext,
        "release on B",
    );
    assert_eq!(a.len(), 1, "A keeps its definition");
    assert_eq!(b.len(), 0);
}

#[test]
fn double_release_and_stale_lease_are_already_released() {
    let mut reg = registry(3, 2);
    let handle = reg.create(&workflow_spec()).expect("create");
    reg.release(handle).expect("first release");
    assert_eq!(reg.len(), 0);

    assert_handle_err(
        reg.release(handle),
        ErrorCategory::AlreadyReleased,
        "second release",
    );
    assert_handle_err(
        reg.lease(handle),
        ErrorCategory::AlreadyReleased,
        "lease after release",
    );
    assert_handle_err(
        reg.inspect(handle),
        ErrorCategory::AlreadyReleased,
        "inspect after release",
    );
}

#[test]
fn lease_survives_release() {
    let mut reg = registry(4, 2);
    let spec = workflow_spec();
    let expected = compile(&spec, &HfsmLimits::default())
        .expect("compiles")
        .fingerprint();
    let handle = reg.create(&spec).expect("create");
    let leased = reg.lease(handle).expect("lease");
    reg.release(handle).expect("release");

    assert_eq!(leased.fingerprint(), expected);
    assert_eq!(Arc::strong_count(&leased), 1, "registry dropped its Arc");
}

#[test]
fn capacity_is_enforced_and_recovered_on_release() {
    let mut reg = registry(5, 1);
    let spec = workflow_spec();
    let first = reg.create(&spec).expect("first create");
    assert_handle_err(
        reg.create(&spec),
        ErrorCategory::CapacityExceeded,
        "second create at capacity 1",
    );
    assert_eq!(reg.len(), 1);

    reg.release(first).expect("release first");
    let again = reg.create(&spec).expect("create after release");
    assert_ne!(again, first, "generation bump yields a fresh handle");
    assert_handle_err(
        reg.lease(first),
        ErrorCategory::InvalidHandle,
        "old generation after slot reuse",
    );
    assert_eq!(reg.len(), 1);
}

#[test]
fn cancel_blocks_create_but_not_lease_and_destroy_blocks_everything() {
    let mut reg = registry(6, 4);
    let spec = workflow_spec();
    let handle = reg.create(&spec).expect("create");
    assert_eq!(reg.name(), "hfsm");

    reg.cancel_requested(CancelReason::ContextClosing);
    assert_handle_err(
        reg.create(&spec),
        ErrorCategory::ContextClosing,
        "create while closing",
    );
    reg.lease(handle)
        .expect("lease still allowed while closing");
    reg.inspect(handle)
        .expect("inspect still allowed while closing");
    assert_eq!(reg.len(), 1);

    let report = reg.quiesce(Deadline::none()).expect("quiesce");
    assert_eq!(report.state, QuiesceState::Quiesced);

    let leased_before = reg.lease(handle).expect("lease before destroy");
    reg.destroy().expect("destroy");
    assert_eq!(reg.len(), 0);
    assert_handle_err(
        reg.create(&spec),
        ErrorCategory::ContextDestroyed,
        "create after destroy",
    );
    assert_handle_err(
        reg.lease(handle),
        ErrorCategory::ContextDestroyed,
        "lease after destroy",
    );
    assert_handle_err(
        reg.inspect(handle),
        ErrorCategory::ContextDestroyed,
        "inspect after destroy",
    );
    assert_handle_err(
        reg.release(handle),
        ErrorCategory::ContextDestroyed,
        "release after destroy",
    );
    assert_eq!(
        leased_before.fingerprint(),
        compile(&spec, &HfsmLimits::default())
            .expect("compiles")
            .fingerprint(),
        "in-flight lease outlives destroy"
    );
    reg.destroy().expect("destroy is idempotent");
    assert_eq!(reg.len(), 0);
}

// ---- shared builders ----


pub fn st(id: u32, parent: Option<u32>, initial: Option<u32>) -> StateSpec {
    StateSpec {
        id: StateId(id),
        parent: parent.map(StateId),
        initial: initial.map(StateId),
        entry: Vec::new(),
        exit: Vec::new(),
        name: None,
    }
}

pub fn st_actions(
    id: u32,
    parent: Option<u32>,
    initial: Option<u32>,
    entry: &[u32],
    exit: &[u32],
) -> StateSpec {
    let mut s = st(id, parent, initial);
    s.entry = entry.iter().map(|a| ActionId(*a)).collect();
    s.exit = exit.iter().map(|a| ActionId(*a)).collect();
    s
}

pub fn external(
    id: u32,
    source: u32,
    event: u32,
    priority: u32,
    guard: Option<u32>,
    target: u32,
) -> TransitionSpec {
    TransitionSpec {
        id: TransitionId(id),
        source: StateId(source),
        event: EventKind(event),
        priority,
        guard: guard.map(GuardId),
        kind: TransitionKind::External {
            target: StateId(target),
        },
        actions: Vec::new(),
    }
}

pub fn local(
    id: u32,
    source: u32,
    event: u32,
    priority: u32,
    guard: Option<u32>,
    target: u32,
) -> TransitionSpec {
    TransitionSpec {
        kind: TransitionKind::Local {
            target: StateId(target),
        },
        ..external(id, source, event, priority, guard, target)
    }
}

pub fn internal(
    id: u32,
    source: u32,
    event: u32,
    priority: u32,
    guard: Option<u32>,
) -> TransitionSpec {
    TransitionSpec {
        kind: TransitionKind::Internal,
        ..external(id, source, event, priority, guard, source)
    }
}

pub fn spec(
    initial: u32,
    states: Vec<StateSpec>,
    transitions: Vec<TransitionSpec>,
) -> DefinitionSpec {
    DefinitionSpec {
        format_version: FORMAT_VERSION,
        initial: StateId(initial),
        states,
        transitions,
    }
}

/// Root └─ A(initial A1) ├─ A1 └─ A2   (contract §4.1)
pub fn a_tree() -> Vec<StateSpec> {
    vec![
        st(1, None, Some(2)),
        st(2, Some(1), None),
        st(3, Some(1), None),
    ]
}

/// v0.1 §15.1 content-loading workflow.
pub fn workflow_spec() -> DefinitionSpec {
    spec(
        1,
        vec![
            st(1, None, Some(2)),
            st(2, Some(1), None),
            st_actions(3, Some(1), Some(4), &[], &[103]),
            st_actions(4, Some(3), None, &[101], &[]),
            st_actions(5, Some(3), None, &[102], &[]),
            st(6, Some(1), None),
            st(7, Some(1), None),
            st(8, Some(1), None),
        ],
        vec![
            external(1, 2, 1, 0, Some(1), 3),
            external(2, 4, 2, 0, None, 5),
            external(3, 4, 3, 0, None, 7),
            external(4, 5, 4, 0, None, 6),
            external(5, 5, 5, 0, None, 7),
            external(6, 3, 6, 0, None, 8),
            local(7, 1, 7, 0, None, 2),
        ],
    )
}

pub fn compile_ok(spec: &DefinitionSpec) -> CompiledDefinition {
    compile(spec, &HfsmLimits::default()).expect("spec should compile")
}

pub fn compile_err(spec: &DefinitionSpec) -> CompileError {
    compile(spec, &HfsmLimits::default()).expect_err("spec should be rejected")
}

// ---- evaluator helpers (H03) ----

/// §4.1 A-tree with distinguishable actions: A entry 10 / exit 11, A1 20/21, A2 30/31.
pub fn a_tree_actions() -> Vec<StateSpec> {
    vec![
        st_actions(1, None, Some(2), &[10], &[11]),
        st_actions(2, Some(1), None, &[20], &[21]),
        st_actions(3, Some(1), None, &[30], &[31]),
    ]
}

pub fn with_action(mut t: TransitionSpec, action: u32) -> TransitionSpec {
    t.actions.push(ActionId(action));
    t
}

pub fn snap(
    def: &CompiledDefinition,
    key: u64,
    epoch: u64,
    step: u64,
    next: u64,
    path: &[(u32, u64)],
) -> Snapshot {
    Snapshot {
        fingerprint: def.fingerprint(),
        machine_key: MachineKey(key),
        epoch: MachineEpoch(epoch),
        step_seq: StepSeq(step),
        next_activation_seq: ActivationSeq(next),
        lifecycle: if path.is_empty() {
            Lifecycle::NotStarted
        } else {
            Lifecycle::Running
        },
        active_path: path
            .iter()
            .map(|(s, seq)| ActiveState {
                state: StateId(*s),
                activation_seq: ActivationSeq(*seq),
            })
            .collect(),
    }
}

pub fn path(path: &[(u32, u64)]) -> Vec<ActiveState> {
    path.iter()
        .map(|(s, seq)| ActiveState {
            state: StateId(*s),
            activation_seq: ActivationSeq(*seq),
        })
        .collect()
}

pub fn start_item<'a>(def: &'a CompiledDefinition, key: u64, epoch: u64) -> BatchItem<'a> {
    BatchItem {
        machine_key: MachineKey(key),
        definition: def,
        kind: ItemKind::Start {
            epoch: MachineEpoch(epoch),
        },
        snapshot: None,
        guards: GuardFrame::new(&[]),
        scope: None,
    }
}

pub fn event_item<'a>(
    def: &'a CompiledDefinition,
    snapshot: &'a Snapshot,
    event: u32,
    guards: &'a [(GuardId, bool)],
) -> BatchItem<'a> {
    BatchItem {
        machine_key: snapshot.machine_key,
        definition: def,
        kind: ItemKind::Event {
            event: EventKind(event),
        },
        snapshot: Some(snapshot),
        guards: GuardFrame::new(guards),
        scope: None,
    }
}

pub fn stop_item<'a>(def: &'a CompiledDefinition, snapshot: &'a Snapshot) -> BatchItem<'a> {
    BatchItem {
        machine_key: snapshot.machine_key,
        definition: def,
        kind: ItemKind::Stop,
        snapshot: Some(snapshot),
        guards: GuardFrame::new(&[]),
        scope: None,
    }
}

#[derive(Debug)]
pub struct Run {
    pub status: BatchStatus,
    pub items: Vec<ItemPlan>,
    pub paths: Vec<ActiveState>,
    pub actions: Vec<ActionRecord>,
}

impl Run {
    pub fn plan(&self, i: usize) -> &ItemPlan {
        &self.items[i]
    }

    pub fn path_of(&self, i: usize) -> &[ActiveState] {
        let p = &self.items[i];
        &self.paths[p.path_start as usize..(p.path_start + p.path_len) as usize]
    }

    pub fn actions_of(&self, i: usize) -> &[ActionRecord] {
        let p = &self.items[i];
        &self.actions[p.action_start as usize..(p.action_start + p.action_len) as usize]
    }

    pub fn next_snapshot(&self, i: usize) -> Snapshot {
        Snapshot::from_plan(&self.items[i], &self.paths).expect("item has a next snapshot")
    }

    /// (phase, action, state, activation_seq) tuples for compact assertions.
    pub fn records(&self, i: usize) -> Vec<(ActionPhase, u32, u32, u64)> {
        self.actions_of(i)
            .iter()
            .map(|r| (r.phase, r.action.0, r.state.0, r.activation_seq.0))
            .collect()
    }
}

/// Evaluate with generously sized caller buffers.
pub fn run(items: &[BatchItem<'_>]) -> Result<Run, HfsmError> {
    run_with(items, &HfsmLimits::default(), 4096, 4096)
}

pub fn run_with(
    items: &[BatchItem<'_>],
    limits: &HfsmLimits,
    path_cap: usize,
    action_cap: usize,
) -> Result<Run, HfsmError> {
    let mut plans = vec![ItemPlan::empty(); items.len()];
    let mut paths = vec![ActiveState::empty(); path_cap];
    let mut actions = vec![ActionRecord::empty(); action_cap];
    let mut scratch = Scratch::new(limits);
    let status = evaluate_batch(
        items,
        limits,
        PlanOutput {
            items: &mut plans,
            paths: &mut paths,
            actions: &mut actions,
        },
        &mut scratch,
    )?;
    paths.truncate(status.paths_written as usize);
    actions.truncate(status.actions_written as usize);
    Ok(Run {
        status,
        items: plans,
        paths,
        actions,
    })
}

pub fn started(def: &CompiledDefinition, key: u64, epoch: u64) -> Snapshot {
    let r = run(&[start_item(def, key, epoch)]).expect("start batch");
    assert_eq!(r.plan(0).outcome, Outcome::Started);
    r.next_snapshot(0)
}
