#![allow(unused_imports, dead_code)]

use lumio_core::hfsm::{
    ActionId, ActionPhase, ActionRecord, ActivationSeq, ActiveState, BatchItem, BatchStatus, CompileError,
    CompileErrorKind, CompiledDefinition, DefinitionHandle, DefinitionInfo, DefinitionSpec, DeliveryScope,
    EventKind, GuardFrame, GuardId, GuardValue, HfsmDefinitionRegistry, HfsmError, HfsmLimits, ItemError,
    ItemKind, ItemPlan, Lifecycle, MachineEpoch, MachineKey, Outcome, PlanOutput, Scratch, Snapshot,
    SnapshotError, SnapshotHeader, StateId, StateSpec, StepSeq, TransitionId, TransitionKind, TransitionSpec,
    compile, evaluate_batch, FORMAT_VERSION, SEMANTICS_VERSION,
};
// T13 / T15 and batch-level rejections (contract §6).



#[test]
fn t13_buffer_too_small_writes_nothing_and_retry_is_bitwise_identical() {
    let def = compile_ok(&workflow_spec());
    let idle = started(&def, 7, 1);
    let guards = [(GuardId(1), true)];
    let items = [event_item(&def, &idle, 1, &guards), start_item(&def, 8, 1)];
    // Needs 2 items, 3 + 2 = 5 paths, 1 + 0 = 1 actions.
    let err = run_with(&items, &HfsmLimits::default(), 4, 8).unwrap_err();
    assert_eq!(
        err,
        HfsmError::BufferTooSmall {
            required_items: 2,
            required_paths: 5,
            required_actions: 1
        }
    );
    let err = run_with(&items, &HfsmLimits::default(), 8, 0).unwrap_err();
    assert_eq!(
        err,
        HfsmError::BufferTooSmall {
            required_items: 2,
            required_paths: 5,
            required_actions: 1
        }
    );

    // Too-small item slice is also BufferTooSmall.
    let mut one_plan = vec![ItemPlan::empty(); 1];
    let mut paths = vec![ActiveState::empty(); 8];
    let mut actions = vec![ActionRecord::empty(); 8];
    let mut scratch = Scratch::new(&HfsmLimits::default());
    let err = evaluate_batch(
        &items,
        &HfsmLimits::default(),
        PlanOutput {
            items: &mut one_plan,
            paths: &mut paths,
            actions: &mut actions,
        },
        &mut scratch,
    )
    .unwrap_err();
    assert!(matches!(
        err,
        HfsmError::BufferTooSmall {
            required_items: 2,
            ..
        }
    ));
    assert_eq!(one_plan[0], ItemPlan::empty());
    assert!(paths.iter().all(|p| *p == ActiveState::empty()));

    let a = run_with(&items, &HfsmLimits::default(), 5, 1).unwrap();
    let b = run_with(&items, &HfsmLimits::default(), 64, 64).unwrap();
    assert_eq!(a.status, b.status);
    assert_eq!(a.items, b.items);
    assert_eq!(a.paths, b.paths);
    assert_eq!(a.actions, b.actions);
    assert_eq!(a.status.paths_written, 5);
    assert_eq!(a.status.actions_written, 1);
    assert_eq!(a.status.items_written, 2);
}

#[test]
fn t15_same_machine_twice_in_one_batch_rejects_whole_batch() {
    let def = compile_ok(&workflow_spec());
    let idle = started(&def, 7, 1);
    let items = [
        event_item(&def, &idle, 2, &[]),
        event_item(&def, &idle, 7, &[]),
    ];
    assert_eq!(
        run(&items).unwrap_err(),
        HfsmError::DuplicateMachineInBatch { key: MachineKey(7) }
    );
}

#[test]
fn batch_too_large_and_invalid_limits_are_rejected() {
    let def = compile_ok(&workflow_spec());
    let limits = HfsmLimits {
        max_batch: 1,
        ..HfsmLimits::default()
    };
    let items = [start_item(&def, 1, 1), start_item(&def, 2, 1)];
    assert_eq!(
        run_with(&items, &limits, 64, 64).unwrap_err(),
        HfsmError::BatchTooLarge { len: 2, max: 1 }
    );
    let bad = HfsmLimits {
        max_batch: 0,
        ..HfsmLimits::default()
    };
    let mut plans = vec![ItemPlan::empty(); 1];
    let mut paths = vec![ActiveState::empty(); 8];
    let mut actions = vec![ActionRecord::empty(); 8];
    let mut scratch = Scratch::new(&HfsmLimits::default());
    let err = evaluate_batch(
        &[start_item(&def, 1, 1)],
        &bad,
        PlanOutput {
            items: &mut plans,
            paths: &mut paths,
            actions: &mut actions,
        },
        &mut scratch,
    )
    .unwrap_err();
    assert_eq!(err, HfsmError::LimitsInvalid);
}

#[test]
fn rejected_item_in_the_middle_does_not_affect_neighbours() {
    let def = compile_ok(&workflow_spec());
    let idle_a = started(&def, 1, 1);
    let idle_c = started(&def, 3, 1);
    let guards = [(GuardId(1), true)];
    let mut mismatched = event_item(&def, &idle_a, 1, &guards);
    mismatched.machine_key = MachineKey(2); // snapshot says 1
    let items = [
        event_item(&def, &idle_a, 1, &guards),
        mismatched,
        event_item(&def, &idle_c, 1, &guards),
    ];
    let r = run(&items).unwrap();
    assert!(matches!(r.plan(0).outcome, Outcome::Transitioned { .. }));
    assert_eq!(
        r.plan(1).outcome,
        Outcome::Rejected(ItemError::MachineKeyMismatch)
    );
    assert_eq!(r.plan(1).path_len, 0);
    assert_eq!(r.plan(1).action_len, 0);
    assert!(matches!(r.plan(2).outcome, Outcome::Transitioned { .. }));
    assert_eq!(r.next_snapshot(2).machine_key, MachineKey(3));
    assert_eq!(r.actions_of(2)[0].item_index, 2);
    assert_eq!(r.status.items_written, 3);
}

#[test]
fn empty_batch_is_ok_and_writes_nothing() {
    let r = run(&[]).unwrap();
    assert_eq!(
        r.status,
        BatchStatus {
            items_written: 0,
            paths_written: 0,
            actions_written: 0
        }
    );
}

#[test]
fn evaluate_does_not_mutate_inputs() {
    let def = compile_ok(&workflow_spec());
    let idle = started(&def, 7, 1);
    let before = idle.clone();
    let guards = [(GuardId(1), true)];
    let _ = run(&[event_item(&def, &idle, 1, &guards)]).unwrap();
    assert_eq!(idle, before);
}

// ---- shared builders ----


pub fn st(id: u32, parent: Option<u32>, initial: Option<u32>) -> StateSpec {
    StateSpec {
        id: StateId(id),
        parent: parent.map(StateId),
        initial: initial.map(StateId),
        entry: Vec::new(),
        exit: Vec::new(),
        name: None,
    }
}

pub fn st_actions(
    id: u32,
    parent: Option<u32>,
    initial: Option<u32>,
    entry: &[u32],
    exit: &[u32],
) -> StateSpec {
    let mut s = st(id, parent, initial);
    s.entry = entry.iter().map(|a| ActionId(*a)).collect();
    s.exit = exit.iter().map(|a| ActionId(*a)).collect();
    s
}

pub fn external(
    id: u32,
    source: u32,
    event: u32,
    priority: u32,
    guard: Option<u32>,
    target: u32,
) -> TransitionSpec {
    TransitionSpec {
        id: TransitionId(id),
        source: StateId(source),
        event: EventKind(event),
        priority,
        guard: guard.map(GuardId),
        kind: TransitionKind::External {
            target: StateId(target),
        },
        actions: Vec::new(),
    }
}

pub fn local(
    id: u32,
    source: u32,
    event: u32,
    priority: u32,
    guard: Option<u32>,
    target: u32,
) -> TransitionSpec {
    TransitionSpec {
        kind: TransitionKind::Local {
            target: StateId(target),
        },
        ..external(id, source, event, priority, guard, target)
    }
}

pub fn internal(
    id: u32,
    source: u32,
    event: u32,
    priority: u32,
    guard: Option<u32>,
) -> TransitionSpec {
    TransitionSpec {
        kind: TransitionKind::Internal,
        ..external(id, source, event, priority, guard, source)
    }
}

pub fn spec(
    initial: u32,
    states: Vec<StateSpec>,
    transitions: Vec<TransitionSpec>,
) -> DefinitionSpec {
    DefinitionSpec {
        format_version: FORMAT_VERSION,
        initial: StateId(initial),
        states,
        transitions,
    }
}

/// Root └─ A(initial A1) ├─ A1 └─ A2   (contract §4.1)
pub fn a_tree() -> Vec<StateSpec> {
    vec![
        st(1, None, Some(2)),
        st(2, Some(1), None),
        st(3, Some(1), None),
    ]
}

/// v0.1 §15.1 content-loading workflow.
pub fn workflow_spec() -> DefinitionSpec {
    spec(
        1,
        vec![
            st(1, None, Some(2)),
            st(2, Some(1), None),
            st_actions(3, Some(1), Some(4), &[], &[103]),
            st_actions(4, Some(3), None, &[101], &[]),
            st_actions(5, Some(3), None, &[102], &[]),
            st(6, Some(1), None),
            st(7, Some(1), None),
            st(8, Some(1), None),
        ],
        vec![
            external(1, 2, 1, 0, Some(1), 3),
            external(2, 4, 2, 0, None, 5),
            external(3, 4, 3, 0, None, 7),
            external(4, 5, 4, 0, None, 6),
            external(5, 5, 5, 0, None, 7),
            external(6, 3, 6, 0, None, 8),
            local(7, 1, 7, 0, None, 2),
        ],
    )
}

pub fn compile_ok(spec: &DefinitionSpec) -> CompiledDefinition {
    compile(spec, &HfsmLimits::default()).expect("spec should compile")
}

pub fn compile_err(spec: &DefinitionSpec) -> CompileError {
    compile(spec, &HfsmLimits::default()).expect_err("spec should be rejected")
}

// ---- evaluator helpers (H03) ----

/// §4.1 A-tree with distinguishable actions: A entry 10 / exit 11, A1 20/21, A2 30/31.
pub fn a_tree_actions() -> Vec<StateSpec> {
    vec![
        st_actions(1, None, Some(2), &[10], &[11]),
        st_actions(2, Some(1), None, &[20], &[21]),
        st_actions(3, Some(1), None, &[30], &[31]),
    ]
}

pub fn with_action(mut t: TransitionSpec, action: u32) -> TransitionSpec {
    t.actions.push(ActionId(action));
    t
}

pub fn snap(
    def: &CompiledDefinition,
    key: u64,
    epoch: u64,
    step: u64,
    next: u64,
    path: &[(u32, u64)],
) -> Snapshot {
    Snapshot {
        fingerprint: def.fingerprint(),
        machine_key: MachineKey(key),
        epoch: MachineEpoch(epoch),
        step_seq: StepSeq(step),
        next_activation_seq: ActivationSeq(next),
        lifecycle: if path.is_empty() {
            Lifecycle::NotStarted
        } else {
            Lifecycle::Running
        },
        active_path: path
            .iter()
            .map(|(s, seq)| ActiveState {
                state: StateId(*s),
                activation_seq: ActivationSeq(*seq),
            })
            .collect(),
    }
}

pub fn path(path: &[(u32, u64)]) -> Vec<ActiveState> {
    path.iter()
        .map(|(s, seq)| ActiveState {
            state: StateId(*s),
            activation_seq: ActivationSeq(*seq),
        })
        .collect()
}

pub fn start_item<'a>(def: &'a CompiledDefinition, key: u64, epoch: u64) -> BatchItem<'a> {
    BatchItem {
        machine_key: MachineKey(key),
        definition: def,
        kind: ItemKind::Start {
            epoch: MachineEpoch(epoch),
        },
        snapshot: None,
        guards: GuardFrame::new(&[]),
        scope: None,
    }
}

pub fn event_item<'a>(
    def: &'a CompiledDefinition,
    snapshot: &'a Snapshot,
    event: u32,
    guards: &'a [(GuardId, bool)],
) -> BatchItem<'a> {
    BatchItem {
        machine_key: snapshot.machine_key,
        definition: def,
        kind: ItemKind::Event {
            event: EventKind(event),
        },
        snapshot: Some(snapshot),
        guards: GuardFrame::new(guards),
        scope: None,
    }
}

pub fn stop_item<'a>(def: &'a CompiledDefinition, snapshot: &'a Snapshot) -> BatchItem<'a> {
    BatchItem {
        machine_key: snapshot.machine_key,
        definition: def,
        kind: ItemKind::Stop,
        snapshot: Some(snapshot),
        guards: GuardFrame::new(&[]),
        scope: None,
    }
}

#[derive(Debug)]
pub struct Run {
    pub status: BatchStatus,
    pub items: Vec<ItemPlan>,
    pub paths: Vec<ActiveState>,
    pub actions: Vec<ActionRecord>,
}

impl Run {
    pub fn plan(&self, i: usize) -> &ItemPlan {
        &self.items[i]
    }

    pub fn path_of(&self, i: usize) -> &[ActiveState] {
        let p = &self.items[i];
        &self.paths[p.path_start as usize..(p.path_start + p.path_len) as usize]
    }

    pub fn actions_of(&self, i: usize) -> &[ActionRecord] {
        let p = &self.items[i];
        &self.actions[p.action_start as usize..(p.action_start + p.action_len) as usize]
    }

    pub fn next_snapshot(&self, i: usize) -> Snapshot {
        Snapshot::from_plan(&self.items[i], &self.paths).expect("item has a next snapshot")
    }

    /// (phase, action, state, activation_seq) tuples for compact assertions.
    pub fn records(&self, i: usize) -> Vec<(ActionPhase, u32, u32, u64)> {
        self.actions_of(i)
            .iter()
            .map(|r| (r.phase, r.action.0, r.state.0, r.activation_seq.0))
            .collect()
    }
}

/// Evaluate with generously sized caller buffers.
pub fn run(items: &[BatchItem<'_>]) -> Result<Run, HfsmError> {
    run_with(items, &HfsmLimits::default(), 4096, 4096)
}

pub fn run_with(
    items: &[BatchItem<'_>],
    limits: &HfsmLimits,
    path_cap: usize,
    action_cap: usize,
) -> Result<Run, HfsmError> {
    let mut plans = vec![ItemPlan::empty(); items.len()];
    let mut paths = vec![ActiveState::empty(); path_cap];
    let mut actions = vec![ActionRecord::empty(); action_cap];
    let mut scratch = Scratch::new(limits);
    let status = evaluate_batch(
        items,
        limits,
        PlanOutput {
            items: &mut plans,
            paths: &mut paths,
            actions: &mut actions,
        },
        &mut scratch,
    )?;
    paths.truncate(status.paths_written as usize);
    actions.truncate(status.actions_written as usize);
    Ok(Run {
        status,
        items: plans,
        paths,
        actions,
    })
}

pub fn started(def: &CompiledDefinition, key: u64, epoch: u64) -> Snapshot {
    let r = run(&[start_item(def, key, epoch)]).expect("start batch");
    assert_eq!(r.plan(0).outcome, Outcome::Started);
    r.next_snapshot(0)
}
