#![allow(unused_imports, dead_code)]

use lumio_core::hfsm::{
    ActionId, ActionPhase, ActionRecord, ActivationSeq, ActiveState, BatchItem, BatchStatus, CompileError,
    CompileErrorKind, CompiledDefinition, DefinitionHandle, DefinitionInfo, DefinitionSpec, DeliveryScope,
    EventKind, GuardFrame, GuardId, GuardValue, HfsmDefinitionRegistry, HfsmError, HfsmLimits, ItemError,
    ItemKind, ItemPlan, Lifecycle, MachineEpoch, MachineKey, Outcome, PlanOutput, Scratch, Snapshot,
    SnapshotError, SnapshotHeader, StateId, StateSpec, StepSeq, TransitionId, TransitionKind, TransitionSpec,
    compile, evaluate_batch, FORMAT_VERSION, SEMANTICS_VERSION,
};
// T02–T08, T11: the six §4.1 vectors, bubbling, child priority, Unhandled, UnknownEvent.



/// A-tree with actions and six transitions, one per event 1..=6 (§4.1 rows).
fn six_vectors() -> CompiledDefinition {
    compile_ok(&spec(
        1,
        a_tree_actions(),
        vec![
            with_action(external(1, 2, 1, 0, None, 3), 99), // A1 → A2 External
            with_action(external(2, 1, 2, 0, None, 3), 99), // A  → A2 External
            with_action(local(3, 1, 3, 0, None, 3), 99),    // A  → A2 Local
            with_action(external(4, 2, 4, 0, None, 2), 99), // A1 → A1 External
            with_action(internal(5, 2, 5, 0, None), 99),    // A1 Internal
            with_action(external(6, 2, 6, 0, None, 1), 99), // A1 → A  External
        ],
    ))
}

fn a_a1() -> (CompiledDefinition, Snapshot) {
    let def = six_vectors();
    let s = started(&def, 7, 1);
    assert_eq!(s.active_path, path(&[(1, 1), (2, 2)]));
    assert_eq!(s.next_activation_seq, ActivationSeq(3));
    (def, s)
}

fn fire(def: &CompiledDefinition, s: &Snapshot, event: u32) -> Run {
    run(&[event_item(def, s, event, &[])]).unwrap()
}

#[test]
fn t02_sibling_external_keeps_parent() {
    let (def, s) = a_a1();
    let r = fire(&def, &s, 1);
    assert_eq!(
        r.plan(0).outcome,
        Outcome::Transitioned {
            transition: TransitionId(1)
        }
    );
    assert_eq!(
        r.records(0),
        vec![
            (ActionPhase::Exit, 21, 2, 2),
            (ActionPhase::Transition, 99, 2, 2),
            (ActionPhase::Enter, 30, 3, 3),
        ]
    );
    let n = r.next_snapshot(0);
    assert_eq!(n.active_path, path(&[(1, 1), (3, 3)]));
    assert_eq!(n.next_activation_seq, ActivationSeq(4));
    assert_eq!(n.step_seq, StepSeq(2));
}

#[test]
fn t03_parent_declared_external_to_descendant_reenters_parent() {
    let (def, s) = a_a1();
    let r = fire(&def, &s, 2);
    assert_eq!(
        r.records(0),
        vec![
            (ActionPhase::Exit, 21, 2, 2),
            (ActionPhase::Exit, 11, 1, 1),
            (ActionPhase::Transition, 99, 1, 1),
            (ActionPhase::Enter, 10, 1, 3),
            (ActionPhase::Enter, 30, 3, 4),
        ]
    );
    let n = r.next_snapshot(0);
    assert_eq!(n.active_path, path(&[(1, 3), (3, 4)]));
    assert_eq!(n.next_activation_seq, ActivationSeq(5));
}

#[test]
fn t04_parent_declared_local_keeps_source_generation() {
    let (def, s) = a_a1();
    let r = fire(&def, &s, 3);
    assert_eq!(
        r.records(0),
        vec![
            (ActionPhase::Exit, 21, 2, 2),
            (ActionPhase::Transition, 99, 1, 1),
            (ActionPhase::Enter, 30, 3, 3),
        ]
    );
    assert_eq!(r.next_snapshot(0).active_path, path(&[(1, 1), (3, 3)]));
}

#[test]
fn t05_external_self_transition_exits_and_reenters_with_new_seq() {
    let (def, s) = a_a1();
    let r = fire(&def, &s, 4);
    assert_eq!(
        r.records(0),
        vec![
            (ActionPhase::Exit, 21, 2, 2),
            (ActionPhase::Transition, 99, 2, 2),
            (ActionPhase::Enter, 20, 2, 3),
        ]
    );
    assert_eq!(r.next_snapshot(0).active_path, path(&[(1, 1), (2, 3)]));
}

#[test]
fn t06_internal_only_emits_transition_actions() {
    let (def, s) = a_a1();
    let r = fire(&def, &s, 5);
    assert_eq!(r.records(0), vec![(ActionPhase::Transition, 99, 2, 2)]);
    let n = r.next_snapshot(0);
    assert_eq!(n.active_path, s.active_path);
    assert_eq!(n.next_activation_seq, s.next_activation_seq);
    assert_eq!(n.step_seq, StepSeq(s.step_seq.0 + 1));
}

#[test]
fn t06b_external_to_ancestor_reenters_ancestor_and_its_initial() {
    let (def, s) = a_a1();
    let r = fire(&def, &s, 6);
    assert_eq!(
        r.records(0),
        vec![
            (ActionPhase::Exit, 21, 2, 2),
            (ActionPhase::Exit, 11, 1, 1),
            (ActionPhase::Transition, 99, 2, 2),
            (ActionPhase::Enter, 10, 1, 3),
            (ActionPhase::Enter, 20, 2, 4),
        ]
    );
    assert_eq!(r.next_snapshot(0).active_path, path(&[(1, 3), (2, 4)]));
}

#[test]
fn t07_child_guard_false_bubbles_to_parent() {
    let def = compile_ok(&spec(
        1,
        a_tree(),
        vec![
            external(1, 2, 7, 0, Some(1), 3), // A1 --7[g1]--> A2
            external(2, 1, 7, 0, Some(2), 3), // A  --7[g2]--> A2
        ],
    ));
    let s = started(&def, 7, 1);
    let guards = [(GuardId(1), false), (GuardId(2), true)];
    let r = run(&[event_item(&def, &s, 7, &guards)]).unwrap();
    assert_eq!(
        r.plan(0).outcome,
        Outcome::Transitioned {
            transition: TransitionId(2)
        }
    );
    // Parent-declared External: A is re-entered.
    assert_eq!(r.next_snapshot(0).active_path, path(&[(1, 3), (3, 4)]));
}

#[test]
fn t08_child_wins_even_with_larger_priority_number() {
    let def = compile_ok(&spec(
        1,
        a_tree(),
        vec![
            external(1, 2, 7, 10, Some(1), 3), // A1 p10
            external(2, 1, 7, 0, Some(2), 3),  // A  p0
        ],
    ));
    let s = started(&def, 7, 1);
    let guards = [(GuardId(1), true), (GuardId(2), true)];
    let r = run(&[event_item(&def, &s, 7, &guards)]).unwrap();
    assert_eq!(
        r.plan(0).outcome,
        Outcome::Transitioned {
            transition: TransitionId(1)
        }
    );
}

#[test]
fn priority_order_within_one_level_picks_first_true_guard() {
    let def = compile_ok(&spec(
        1,
        a_tree(),
        vec![
            external(1, 2, 7, 5, Some(1), 3),
            external(2, 2, 7, 1, Some(2), 3),
            external(3, 2, 7, 9, None, 3),
        ],
    ));
    let s = started(&def, 7, 1);
    let guards = [(GuardId(1), true), (GuardId(2), false)];
    let r = run(&[event_item(&def, &s, 7, &guards)]).unwrap();
    assert_eq!(
        r.plan(0).outcome,
        Outcome::Transitioned {
            transition: TransitionId(1)
        }
    );
    let guards = [(GuardId(1), false), (GuardId(2), false)];
    let r = run(&[event_item(&def, &s, 7, &guards)]).unwrap();
    assert_eq!(
        r.plan(0).outcome,
        Outcome::Transitioned {
            transition: TransitionId(3)
        }
    );
}

#[test]
fn t11_unhandled_advances_step_seq_only() {
    let def = compile_ok(&workflow_spec());
    let idle = started(&def, 7, 1);
    // Event 2 (LoadSucceeded) is declared on Loading only; Idle → Unhandled.
    let r = run(&[event_item(&def, &idle, 2, &[])]).unwrap();
    assert_eq!(r.plan(0).outcome, Outcome::Unhandled);
    assert_eq!(r.plan(0).action_len, 0);
    let n = r.next_snapshot(0);
    assert_eq!(n.active_path, idle.active_path);
    assert_eq!(n.next_activation_seq, idle.next_activation_seq);
    assert_eq!(n.step_seq, StepSeq(idle.step_seq.0 + 1));

    // All guards false is also Unhandled.
    let r = run(&[event_item(&def, &idle, 1, &[(GuardId(1), false)])]).unwrap();
    assert_eq!(r.plan(0).outcome, Outcome::Unhandled);
}

#[test]
fn unknown_event_is_an_input_error_not_unhandled() {
    let def = compile_ok(&workflow_spec());
    let idle = started(&def, 7, 1);
    let r = run(&[event_item(&def, &idle, 42, &[])]).unwrap();
    assert_eq!(
        r.plan(0).outcome,
        Outcome::Rejected(ItemError::UnknownEvent)
    );
    assert!(r.plan(0).next.is_none());
}

#[test]
fn workflow_full_path_loading_to_executing_keeps_running_scope() {
    let def = compile_ok(&workflow_spec());
    let idle = started(&def, 7, 1);
    let r = run(&[event_item(&def, &idle, 1, &[(GuardId(1), true)])]).unwrap();
    let loading = r.next_snapshot(0);
    assert_eq!(loading.active_path, path(&[(1, 1), (3, 3), (4, 4)]));
    assert_eq!(r.records(0), vec![(ActionPhase::Enter, 101, 4, 4)]);

    let r = run(&[event_item(&def, &loading, 2, &[])]).unwrap();
    let executing = r.next_snapshot(0);
    assert_eq!(executing.active_path, path(&[(1, 1), (3, 3), (5, 5)]));
    assert_eq!(r.records(0), vec![(ActionPhase::Enter, 102, 5, 5)]);

    // Cancel declared on Running: exits Executing, Running(103); enters Cancelled.
    let r = run(&[event_item(&def, &executing, 6, &[])]).unwrap();
    assert_eq!(r.records(0), vec![(ActionPhase::Exit, 103, 3, 3)]);
    let cancelled = r.next_snapshot(0);
    assert_eq!(cancelled.active_path, path(&[(1, 1), (8, 6)]));

    // Reset is Local on Workflow: Workflow keeps #1, enters Idle.
    let r = run(&[event_item(&def, &cancelled, 7, &[])]).unwrap();
    assert_eq!(r.next_snapshot(0).active_path, path(&[(1, 1), (2, 7)]));
}

// ---- shared builders ----


pub fn st(id: u32, parent: Option<u32>, initial: Option<u32>) -> StateSpec {
    StateSpec {
        id: StateId(id),
        parent: parent.map(StateId),
        initial: initial.map(StateId),
        entry: Vec::new(),
        exit: Vec::new(),
        name: None,
    }
}

pub fn st_actions(
    id: u32,
    parent: Option<u32>,
    initial: Option<u32>,
    entry: &[u32],
    exit: &[u32],
) -> StateSpec {
    let mut s = st(id, parent, initial);
    s.entry = entry.iter().map(|a| ActionId(*a)).collect();
    s.exit = exit.iter().map(|a| ActionId(*a)).collect();
    s
}

pub fn external(
    id: u32,
    source: u32,
    event: u32,
    priority: u32,
    guard: Option<u32>,
    target: u32,
) -> TransitionSpec {
    TransitionSpec {
        id: TransitionId(id),
        source: StateId(source),
        event: EventKind(event),
        priority,
        guard: guard.map(GuardId),
        kind: TransitionKind::External {
            target: StateId(target),
        },
        actions: Vec::new(),
    }
}

pub fn local(
    id: u32,
    source: u32,
    event: u32,
    priority: u32,
    guard: Option<u32>,
    target: u32,
) -> TransitionSpec {
    TransitionSpec {
        kind: TransitionKind::Local {
            target: StateId(target),
        },
        ..external(id, source, event, priority, guard, target)
    }
}

pub fn internal(
    id: u32,
    source: u32,
    event: u32,
    priority: u32,
    guard: Option<u32>,
) -> TransitionSpec {
    TransitionSpec {
        kind: TransitionKind::Internal,
        ..external(id, source, event, priority, guard, source)
    }
}

pub fn spec(
    initial: u32,
    states: Vec<StateSpec>,
    transitions: Vec<TransitionSpec>,
) -> DefinitionSpec {
    DefinitionSpec {
        format_version: FORMAT_VERSION,
        initial: StateId(initial),
        states,
        transitions,
    }
}

/// Root └─ A(initial A1) ├─ A1 └─ A2   (contract §4.1)
pub fn a_tree() -> Vec<StateSpec> {
    vec![
        st(1, None, Some(2)),
        st(2, Some(1), None),
        st(3, Some(1), None),
    ]
}

/// v0.1 §15.1 content-loading workflow.
pub fn workflow_spec() -> DefinitionSpec {
    spec(
        1,
        vec![
            st(1, None, Some(2)),
            st(2, Some(1), None),
            st_actions(3, Some(1), Some(4), &[], &[103]),
            st_actions(4, Some(3), None, &[101], &[]),
            st_actions(5, Some(3), None, &[102], &[]),
            st(6, Some(1), None),
            st(7, Some(1), None),
            st(8, Some(1), None),
        ],
        vec![
            external(1, 2, 1, 0, Some(1), 3),
            external(2, 4, 2, 0, None, 5),
            external(3, 4, 3, 0, None, 7),
            external(4, 5, 4, 0, None, 6),
            external(5, 5, 5, 0, None, 7),
            external(6, 3, 6, 0, None, 8),
            local(7, 1, 7, 0, None, 2),
        ],
    )
}

pub fn compile_ok(spec: &DefinitionSpec) -> CompiledDefinition {
    compile(spec, &HfsmLimits::default()).expect("spec should compile")
}

pub fn compile_err(spec: &DefinitionSpec) -> CompileError {
    compile(spec, &HfsmLimits::default()).expect_err("spec should be rejected")
}

// ---- evaluator helpers (H03) ----

/// §4.1 A-tree with distinguishable actions: A entry 10 / exit 11, A1 20/21, A2 30/31.
pub fn a_tree_actions() -> Vec<StateSpec> {
    vec![
        st_actions(1, None, Some(2), &[10], &[11]),
        st_actions(2, Some(1), None, &[20], &[21]),
        st_actions(3, Some(1), None, &[30], &[31]),
    ]
}

pub fn with_action(mut t: TransitionSpec, action: u32) -> TransitionSpec {
    t.actions.push(ActionId(action));
    t
}

pub fn snap(
    def: &CompiledDefinition,
    key: u64,
    epoch: u64,
    step: u64,
    next: u64,
    path: &[(u32, u64)],
) -> Snapshot {
    Snapshot {
        fingerprint: def.fingerprint(),
        machine_key: MachineKey(key),
        epoch: MachineEpoch(epoch),
        step_seq: StepSeq(step),
        next_activation_seq: ActivationSeq(next),
        lifecycle: if path.is_empty() {
            Lifecycle::NotStarted
        } else {
            Lifecycle::Running
        },
        active_path: path
            .iter()
            .map(|(s, seq)| ActiveState {
                state: StateId(*s),
                activation_seq: ActivationSeq(*seq),
            })
            .collect(),
    }
}

pub fn path(path: &[(u32, u64)]) -> Vec<ActiveState> {
    path.iter()
        .map(|(s, seq)| ActiveState {
            state: StateId(*s),
            activation_seq: ActivationSeq(*seq),
        })
        .collect()
}

pub fn start_item<'a>(def: &'a CompiledDefinition, key: u64, epoch: u64) -> BatchItem<'a> {
    BatchItem {
        machine_key: MachineKey(key),
        definition: def,
        kind: ItemKind::Start {
            epoch: MachineEpoch(epoch),
        },
        snapshot: None,
        guards: GuardFrame::new(&[]),
        scope: None,
    }
}

pub fn event_item<'a>(
    def: &'a CompiledDefinition,
    snapshot: &'a Snapshot,
    event: u32,
    guards: &'a [(GuardId, bool)],
) -> BatchItem<'a> {
    BatchItem {
        machine_key: snapshot.machine_key,
        definition: def,
        kind: ItemKind::Event {
            event: EventKind(event),
        },
        snapshot: Some(snapshot),
        guards: GuardFrame::new(guards),
        scope: None,
    }
}

pub fn stop_item<'a>(def: &'a CompiledDefinition, snapshot: &'a Snapshot) -> BatchItem<'a> {
    BatchItem {
        machine_key: snapshot.machine_key,
        definition: def,
        kind: ItemKind::Stop,
        snapshot: Some(snapshot),
        guards: GuardFrame::new(&[]),
        scope: None,
    }
}

#[derive(Debug)]
pub struct Run {
    pub status: BatchStatus,
    pub items: Vec<ItemPlan>,
    pub paths: Vec<ActiveState>,
    pub actions: Vec<ActionRecord>,
}

impl Run {
    pub fn plan(&self, i: usize) -> &ItemPlan {
        &self.items[i]
    }

    pub fn path_of(&self, i: usize) -> &[ActiveState] {
        let p = &self.items[i];
        &self.paths[p.path_start as usize..(p.path_start + p.path_len) as usize]
    }

    pub fn actions_of(&self, i: usize) -> &[ActionRecord] {
        let p = &self.items[i];
        &self.actions[p.action_start as usize..(p.action_start + p.action_len) as usize]
    }

    pub fn next_snapshot(&self, i: usize) -> Snapshot {
        Snapshot::from_plan(&self.items[i], &self.paths).expect("item has a next snapshot")
    }

    /// (phase, action, state, activation_seq) tuples for compact assertions.
    pub fn records(&self, i: usize) -> Vec<(ActionPhase, u32, u32, u64)> {
        self.actions_of(i)
            .iter()
            .map(|r| (r.phase, r.action.0, r.state.0, r.activation_seq.0))
            .collect()
    }
}

/// Evaluate with generously sized caller buffers.
pub fn run(items: &[BatchItem<'_>]) -> Result<Run, HfsmError> {
    run_with(items, &HfsmLimits::default(), 4096, 4096)
}

pub fn run_with(
    items: &[BatchItem<'_>],
    limits: &HfsmLimits,
    path_cap: usize,
    action_cap: usize,
) -> Result<Run, HfsmError> {
    let mut plans = vec![ItemPlan::empty(); items.len()];
    let mut paths = vec![ActiveState::empty(); path_cap];
    let mut actions = vec![ActionRecord::empty(); action_cap];
    let mut scratch = Scratch::new(limits);
    let status = evaluate_batch(
        items,
        limits,
        PlanOutput {
            items: &mut plans,
            paths: &mut paths,
            actions: &mut actions,
        },
        &mut scratch,
    )?;
    paths.truncate(status.paths_written as usize);
    actions.truncate(status.actions_written as usize);
    Ok(Run {
        status,
        items: plans,
        paths,
        actions,
    })
}

pub fn started(def: &CompiledDefinition, key: u64, epoch: u64) -> Snapshot {
    let r = run(&[start_item(def, key, epoch)]).expect("start batch");
    assert_eq!(r.plan(0).outcome, Outcome::Started);
    r.next_snapshot(0)
}
