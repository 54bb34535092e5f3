#![allow(unused_imports, dead_code)]

use lumio_core::hfsm::{
    ActionId, ActionPhase, ActionRecord, ActivationSeq, ActiveState, BatchItem, BatchStatus, CompileError,
    CompileErrorKind, CompiledDefinition, DefinitionHandle, DefinitionInfo, DefinitionSpec, DeliveryScope,
    EventKind, GuardFrame, GuardId, GuardValue, HfsmDefinitionRegistry, HfsmError, HfsmLimits, ItemError,
    ItemKind, ItemPlan, Lifecycle, MachineEpoch, MachineKey, Outcome, PlanOutput, Scratch, Snapshot,
    SnapshotError, SnapshotHeader, StateId, StateSpec, StepSeq, TransitionId, TransitionKind, TransitionSpec,
    compile, evaluate_batch, FORMAT_VERSION, SEMANTICS_VERSION,
};
// T01 / T12: Start expansion, Stop exit chain, lifecycle violations, restart.



#[test]
fn start_enters_initial_chain_outer_to_inner_with_fresh_activation_seqs() {
    // T01: Workflow(initial Idle); Running(initial Loading) — start goes Workflow → Idle.
    let mut s = workflow_spec();
    s.states[0].entry = vec![ActionId(1)];
    s.states[1].entry = vec![ActionId(2), ActionId(3)];
    let def = compile_ok(&s);

    let r = run(&[start_item(&def, 7, 1)]).unwrap();
    assert_eq!(r.plan(0).outcome, Outcome::Started);
    assert_eq!(r.path_of(0), path(&[(1, 1), (2, 2)]));
    assert_eq!(
        r.records(0),
        vec![
            (ActionPhase::Enter, 1, 1, 1),
            (ActionPhase::Enter, 2, 2, 2),
            (ActionPhase::Enter, 3, 2, 2),
        ]
    );
    let next = r.next_snapshot(0);
    assert_eq!(next.fingerprint, def.fingerprint());
    assert_eq!(next.machine_key, MachineKey(7));
    assert_eq!(next.epoch, MachineEpoch(1));
    assert_eq!(next.lifecycle, Lifecycle::Running);
    assert_eq!(next.step_seq, StepSeq(1));
    assert_eq!(next.next_activation_seq, ActivationSeq(3));
    assert_eq!(next.leaf(), Some(StateId(2)));

    // Ordinals are 0..n within the item.
    let ordinals: Vec<u32> = r.actions_of(0).iter().map(|a| a.ordinal).collect();
    assert_eq!(ordinals, vec![0, 1, 2]);
    assert!(r.actions_of(0).iter().all(|a| a.item_index == 0));
}

#[test]
fn start_on_running_snapshot_is_a_lifecycle_violation() {
    // T12
    let def = compile_ok(&workflow_spec());
    let running = started(&def, 7, 1);
    let mut item = start_item(&def, 7, 2);
    item.snapshot = Some(&running);
    let r = run(&[item]).unwrap();
    assert_eq!(
        r.plan(0).outcome,
        Outcome::Rejected(ItemError::LifecycleViolation)
    );
    assert!(r.plan(0).next.is_none());
    assert_eq!(r.plan(0).action_len, 0);
    assert_eq!(r.plan(0).path_len, 0);
}

#[test]
fn stop_exits_leaf_to_root_and_rejects_later_events() {
    // T12: Running/Loading → Stop exits Loading then Running(exit 103) then Workflow.
    let mut s = workflow_spec();
    s.states[0].exit = vec![ActionId(9)];
    let def = compile_ok(&s);
    let idle = started(&def, 7, 1);
    let guards = [(GuardId(1), true)];
    let r = run(&[event_item(&def, &idle, 1, &guards)]).unwrap();
    let loading = r.next_snapshot(0);
    assert_eq!(loading.active_path, path(&[(1, 1), (3, 3), (4, 4)]));

    let r = run(&[stop_item(&def, &loading)]).unwrap();
    assert_eq!(r.plan(0).outcome, Outcome::Stopped);
    assert_eq!(
        r.records(0),
        vec![(ActionPhase::Exit, 103, 3, 3), (ActionPhase::Exit, 9, 1, 1)]
    );
    let stopped = r.next_snapshot(0);
    assert_eq!(stopped.lifecycle, Lifecycle::Stopped);
    assert!(stopped.active_path.is_empty());
    assert_eq!(stopped.step_seq, StepSeq(loading.step_seq.0 + 1));
    assert_eq!(stopped.next_activation_seq, loading.next_activation_seq);

    let r = run(&[event_item(&def, &stopped, 2, &[])]).unwrap();
    assert_eq!(
        r.plan(0).outcome,
        Outcome::Rejected(ItemError::LifecycleViolation)
    );
    let r = run(&[stop_item(&def, &stopped)]).unwrap();
    assert_eq!(
        r.plan(0).outcome,
        Outcome::Rejected(ItemError::LifecycleViolation)
    );
}

#[test]
fn restart_after_stop_continues_counters_and_takes_new_epoch() {
    let def = compile_ok(&workflow_spec());
    let idle = started(&def, 7, 1);
    let r = run(&[stop_item(&def, &idle)]).unwrap();
    let stopped = r.next_snapshot(0);

    let mut restart = start_item(&def, 7, 2);
    restart.snapshot = Some(&stopped);
    let r = run(&[restart]).unwrap();
    assert_eq!(r.plan(0).outcome, Outcome::Started);
    let again = r.next_snapshot(0);
    assert_eq!(again.epoch, MachineEpoch(2));
    assert_eq!(again.active_path, path(&[(1, 3), (2, 4)]));
    assert_eq!(again.step_seq, StepSeq(3));
    assert_eq!(again.next_activation_seq, ActivationSeq(5));
}

#[test]
fn start_with_not_started_snapshot_uses_its_counters() {
    let def = compile_ok(&workflow_spec());
    let fresh = snap(&def, 7, 0, 0, 1, &[]);
    let mut item = start_item(&def, 7, 5);
    item.snapshot = Some(&fresh);
    let r = run(&[item]).unwrap();
    assert_eq!(r.plan(0).outcome, Outcome::Started);
    assert_eq!(r.next_snapshot(0).epoch, MachineEpoch(5));
    assert_eq!(r.next_snapshot(0).active_path, path(&[(1, 1), (2, 2)]));
}

// ---- shared builders ----


pub fn st(id: u32, parent: Option<u32>, initial: Option<u32>) -> StateSpec {
    StateSpec {
        id: StateId(id),
        parent: parent.map(StateId),
        initial: initial.map(StateId),
        entry: Vec::new(),
        exit: Vec::new(),
        name: None,
    }
}

pub fn st_actions(
    id: u32,
    parent: Option<u32>,
    initial: Option<u32>,
    entry: &[u32],
    exit: &[u32],
) -> StateSpec {
    let mut s = st(id, parent, initial);
    s.entry = entry.iter().map(|a| ActionId(*a)).collect();
    s.exit = exit.iter().map(|a| ActionId(*a)).collect();
    s
}

pub fn external(
    id: u32,
    source: u32,
    event: u32,
    priority: u32,
    guard: Option<u32>,
    target: u32,
) -> TransitionSpec {
    TransitionSpec {
        id: TransitionId(id),
        source: StateId(source),
        event: EventKind(event),
        priority,
        guard: guard.map(GuardId),
        kind: TransitionKind::External {
            target: StateId(target),
        },
        actions: Vec::new(),
    }
}

pub fn local(
    id: u32,
    source: u32,
    event: u32,
    priority: u32,
    guard: Option<u32>,
    target: u32,
) -> TransitionSpec {
    TransitionSpec {
        kind: TransitionKind::Local {
            target: StateId(target),
        },
        ..external(id, source, event, priority, guard, target)
    }
}

pub fn internal(
    id: u32,
    source: u32,
    event: u32,
    priority: u32,
    guard: Option<u32>,
) -> TransitionSpec {
    TransitionSpec {
        kind: TransitionKind::Internal,
        ..external(id, source, event, priority, guard, source)
    }
}

pub fn spec(
    initial: u32,
    states: Vec<StateSpec>,
    transitions: Vec<TransitionSpec>,
) -> DefinitionSpec {
    DefinitionSpec {
        format_version: FORMAT_VERSION,
        initial: StateId(initial),
        states,
        transitions,
    }
}

/// Root └─ A(initial A1) ├─ A1 └─ A2   (contract §4.1)
pub fn a_tree() -> Vec<StateSpec> {
    vec![
        st(1, None, Some(2)),
        st(2, Some(1), None),
        st(3, Some(1), None),
    ]
}

/// v0.1 §15.1 content-loading workflow.
pub fn workflow_spec() -> DefinitionSpec {
    spec(
        1,
        vec![
            st(1, None, Some(2)),
            st(2, Some(1), None),
            st_actions(3, Some(1), Some(4), &[], &[103]),
            st_actions(4, Some(3), None, &[101], &[]),
            st_actions(5, Some(3), None, &[102], &[]),
            st(6, Some(1), None),
            st(7, Some(1), None),
            st(8, Some(1), None),
        ],
        vec![
            external(1, 2, 1, 0, Some(1), 3),
            external(2, 4, 2, 0, None, 5),
            external(3, 4, 3, 0, None, 7),
            external(4, 5, 4, 0, None, 6),
            external(5, 5, 5, 0, None, 7),
            external(6, 3, 6, 0, None, 8),
            local(7, 1, 7, 0, None, 2),
        ],
    )
}

pub fn compile_ok(spec: &DefinitionSpec) -> CompiledDefinition {
    compile(spec, &HfsmLimits::default()).expect("spec should compile")
}

pub fn compile_err(spec: &DefinitionSpec) -> CompileError {
    compile(spec, &HfsmLimits::default()).expect_err("spec should be rejected")
}

// ---- evaluator helpers (H03) ----

/// §4.1 A-tree with distinguishable actions: A entry 10 / exit 11, A1 20/21, A2 30/31.
pub fn a_tree_actions() -> Vec<StateSpec> {
    vec![
        st_actions(1, None, Some(2), &[10], &[11]),
        st_actions(2, Some(1), None, &[20], &[21]),
        st_actions(3, Some(1), None, &[30], &[31]),
    ]
}

pub fn with_action(mut t: TransitionSpec, action: u32) -> TransitionSpec {
    t.actions.push(ActionId(action));
    t
}

pub fn snap(
    def: &CompiledDefinition,
    key: u64,
    epoch: u64,
    step: u64,
    next: u64,
    path: &[(u32, u64)],
) -> Snapshot {
    Snapshot {
        fingerprint: def.fingerprint(),
        machine_key: MachineKey(key),
        epoch: MachineEpoch(epoch),
        step_seq: StepSeq(step),
        next_activation_seq: ActivationSeq(next),
        lifecycle: if path.is_empty() {
            Lifecycle::NotStarted
        } else {
            Lifecycle::Running
        },
        active_path: path
            .iter()
            .map(|(s, seq)| ActiveState {
                state: StateId(*s),
                activation_seq: ActivationSeq(*seq),
            })
            .collect(),
    }
}

pub fn path(path: &[(u32, u64)]) -> Vec<ActiveState> {
    path.iter()
        .map(|(s, seq)| ActiveState {
            state: StateId(*s),
            activation_seq: ActivationSeq(*seq),
        })
        .collect()
}

pub fn start_item<'a>(def: &'a CompiledDefinition, key: u64, epoch: u64) -> BatchItem<'a> {
    BatchItem {
        machine_key: MachineKey(key),
        definition: def,
        kind: ItemKind::Start {
            epoch: MachineEpoch(epoch),
        },
        snapshot: None,
        guards: GuardFrame::new(&[]),
        scope: None,
    }
}

pub fn event_item<'a>(
    def: &'a CompiledDefinition,
    snapshot: &'a Snapshot,
    event: u32,
    guards: &'a [(GuardId, bool)],
) -> BatchItem<'a> {
    BatchItem {
        machine_key: snapshot.machine_key,
        definition: def,
        kind: ItemKind::Event {
            event: EventKind(event),
        },
        snapshot: Some(snapshot),
        guards: GuardFrame::new(guards),
        scope: None,
    }
}

pub fn stop_item<'a>(def: &'a CompiledDefinition, snapshot: &'a Snapshot) -> BatchItem<'a> {
    BatchItem {
        machine_key: snapshot.machine_key,
        definition: def,
        kind: ItemKind::Stop,
        snapshot: Some(snapshot),
        guards: GuardFrame::new(&[]),
        scope: None,
    }
}

#[derive(Debug)]
pub struct Run {
    pub status: BatchStatus,
    pub items: Vec<ItemPlan>,
    pub paths: Vec<ActiveState>,
    pub actions: Vec<ActionRecord>,
}

impl Run {
    pub fn plan(&self, i: usize) -> &ItemPlan {
        &self.items[i]
    }

    pub fn path_of(&self, i: usize) -> &[ActiveState] {
        let p = &self.items[i];
        &self.paths[p.path_start as usize..(p.path_start + p.path_len) as usize]
    }

    pub fn actions_of(&self, i: usize) -> &[ActionRecord] {
        let p = &self.items[i];
        &self.actions[p.action_start as usize..(p.action_start + p.action_len) as usize]
    }

    pub fn next_snapshot(&self, i: usize) -> Snapshot {
        Snapshot::from_plan(&self.items[i], &self.paths).expect("item has a next snapshot")
    }

    /// (phase, action, state, activation_seq) tuples for compact assertions.
    pub fn records(&self, i: usize) -> Vec<(ActionPhase, u32, u32, u64)> {
        self.actions_of(i)
            .iter()
            .map(|r| (r.phase, r.action.0, r.state.0, r.activation_seq.0))
            .collect()
    }
}

/// Evaluate with generously sized caller buffers.
pub fn run(items: &[BatchItem<'_>]) -> Result<Run, HfsmError> {
    run_with(items, &HfsmLimits::default(), 4096, 4096)
}

pub fn run_with(
    items: &[BatchItem<'_>],
    limits: &HfsmLimits,
    path_cap: usize,
    action_cap: usize,
) -> Result<Run, HfsmError> {
    let mut plans = vec![ItemPlan::empty(); items.len()];
    let mut paths = vec![ActiveState::empty(); path_cap];
    let mut actions = vec![ActionRecord::empty(); action_cap];
    let mut scratch = Scratch::new(limits);
    let status = evaluate_batch(
        items,
        limits,
        PlanOutput {
            items: &mut plans,
            paths: &mut paths,
            actions: &mut actions,
        },
        &mut scratch,
    )?;
    paths.truncate(status.paths_written as usize);
    actions.truncate(status.actions_written as usize);
    Ok(Run {
        status,
        items: plans,
        paths,
        actions,
    })
}

pub fn started(def: &CompiledDefinition, key: u64, epoch: u64) -> Snapshot {
    let r = run(&[start_item(def, key, epoch)]).expect("start batch");
    assert_eq!(r.plan(0).outcome, Outcome::Started);
    r.next_snapshot(0)
}
