#![allow(unused_imports, dead_code)]

use lumio_core::hfsm::{
    ActionId, ActionPhase, ActionRecord, ActivationSeq, ActiveState, BatchItem, BatchStatus, CompileError,
    CompileErrorKind, CompiledDefinition, DefinitionHandle, DefinitionInfo, DefinitionSpec, DeliveryScope,
    EventKind, GuardFrame, GuardId, GuardValue, HfsmDefinitionRegistry, HfsmError, HfsmLimits, ItemError,
    ItemKind, ItemPlan, Lifecycle, MachineEpoch, MachineKey, Outcome, PlanOutput, Scratch, Snapshot,
    SnapshotError, SnapshotHeader, StateId, StateSpec, StepSeq, TransitionId, TransitionKind, TransitionSpec,
    compile, evaluate_batch, FORMAT_VERSION, SEMANTICS_VERSION,
};
// H02 / T09 / T32 / T33: compile-time validation of DefinitionSpec.



#[test]
fn limits_with_zero_are_rejected() {
    let limits = HfsmLimits {
        max_depth: 0,
        ..HfsmLimits::default()
    };
    let err = compile(&workflow_spec(), &limits).expect_err("zero limit");
    assert_eq!(err.kind, CompileErrorKind::LimitsInvalid);
}

#[test]
fn unsupported_format_version_is_rejected() {
    let mut s = workflow_spec();
    s.format_version = FORMAT_VERSION + 1;
    let err = compile_err(&s);
    assert_eq!(
        err.kind,
        CompileErrorKind::FormatVersionUnsupported {
            found: FORMAT_VERSION + 1
        }
    );
}

#[test]
fn empty_definition_is_rejected() {
    let err = compile_err(&spec(1, vec![], vec![]));
    assert_eq!(err.kind, CompileErrorKind::EmptyDefinition);
}

#[test]
fn duplicate_state_id_is_rejected() {
    let err = compile_err(&spec(1, vec![st(1, None, None), st(1, None, None)], vec![]));
    assert_eq!(err.kind, CompileErrorKind::DuplicateStateId);
    assert_eq!(err.state, Some(StateId(1)));
}

#[test]
fn duplicate_transition_id_is_rejected() {
    let err = compile_err(&spec(
        1,
        a_tree(),
        vec![external(1, 2, 1, 0, None, 3), external(1, 3, 1, 0, None, 2)],
    ));
    assert_eq!(err.kind, CompileErrorKind::DuplicateTransitionId);
    assert_eq!(err.transition, Some(TransitionId(1)));
}

#[test]
fn unknown_state_references_are_rejected() {
    let unknown_parent = compile_err(&spec(
        1,
        vec![st(1, None, None), st(2, Some(9), None)],
        vec![],
    ));
    assert_eq!(
        unknown_parent.kind,
        CompileErrorKind::UnknownState {
            referenced: StateId(9)
        }
    );
    assert_eq!(unknown_parent.state, Some(StateId(2)));

    let unknown_initial = compile_err(&spec(
        1,
        vec![st(1, None, Some(9)), st(2, Some(1), None)],
        vec![],
    ));
    assert_eq!(
        unknown_initial.kind,
        CompileErrorKind::UnknownState {
            referenced: StateId(9)
        }
    );

    let unknown_root_initial = compile_err(&spec(9, vec![st(1, None, None)], vec![]));
    assert_eq!(
        unknown_root_initial.kind,
        CompileErrorKind::UnknownState {
            referenced: StateId(9)
        }
    );

    let unknown_source = compile_err(&spec(1, a_tree(), vec![external(1, 9, 1, 0, None, 3)]));
    assert_eq!(
        unknown_source.kind,
        CompileErrorKind::UnknownState {
            referenced: StateId(9)
        }
    );
    assert_eq!(unknown_source.transition, Some(TransitionId(1)));

    let unknown_target = compile_err(&spec(1, a_tree(), vec![external(1, 2, 1, 0, None, 9)]));
    assert_eq!(
        unknown_target.kind,
        CompileErrorKind::UnknownState {
            referenced: StateId(9)
        }
    );
}

#[test]
fn root_initial_must_be_top_level() {
    let err = compile_err(&spec(2, a_tree(), vec![]));
    assert_eq!(err.kind, CompileErrorKind::RootInitialNotTopLevel);
}

#[test]
fn initial_must_be_direct_child() {
    // A(initial A1a) ├─ A1(initial A1a) └─ A1a : A's initial skips a level
    let err = compile_err(&spec(
        1,
        vec![
            st(1, None, Some(3)),
            st(2, Some(1), Some(3)),
            st(3, Some(2), None),
        ],
        vec![],
    ));
    assert_eq!(err.kind, CompileErrorKind::InitialNotDirectChild);
    assert_eq!(err.state, Some(StateId(1)));
}

#[test]
fn composite_without_initial_and_leaf_with_initial_are_rejected() {
    let composite = compile_err(&spec(
        1,
        vec![st(1, None, None), st(2, Some(1), None)],
        vec![],
    ));
    assert_eq!(composite.kind, CompileErrorKind::CompositeWithoutInitial);
    assert_eq!(composite.state, Some(StateId(1)));

    let leaf = compile_err(&spec(
        1,
        vec![st(1, None, Some(2)), st(2, Some(1), Some(2))],
        vec![],
    ));
    assert_eq!(leaf.kind, CompileErrorKind::LeafWithInitial);
    assert_eq!(leaf.state, Some(StateId(2)));
}

#[test]
fn structural_parent_cycle_is_rejected_but_business_loop_compiles() {
    // T32: parent cycle 2 -> 3 -> 2
    let err = compile_err(&spec(
        1,
        vec![
            st(1, None, None),
            st(2, Some(3), Some(3)),
            st(3, Some(2), Some(2)),
        ],
        vec![],
    ));
    assert_eq!(err.kind, CompileErrorKind::StructuralCycle);

    // Idle --Start--> Running --Reset--> Idle is a legal event loop.
    let def = compile_ok(&workflow_spec());
    assert_eq!(def.state_count(), 8);
    assert_eq!(def.transition_count(), 7);
}

#[test]
fn depth_and_count_limits_are_enforced() {
    let limits = HfsmLimits {
        max_depth: 2,
        ..HfsmLimits::default()
    };
    let three_deep = spec(
        1,
        vec![
            st(1, None, Some(2)),
            st(2, Some(1), Some(3)),
            st(3, Some(2), None),
        ],
        vec![],
    );
    let err = compile(&three_deep, &limits).expect_err("depth 3 > 2");
    assert_eq!(
        err.kind,
        CompileErrorKind::DepthExceeded { depth: 3, max: 2 }
    );
    assert_eq!(err.state, Some(StateId(3)));

    let limits = HfsmLimits {
        max_states: 2,
        ..HfsmLimits::default()
    };
    let err = compile(&spec(1, a_tree(), vec![]), &limits).expect_err("3 states > 2");
    assert_eq!(
        err.kind,
        CompileErrorKind::StateCountExceeded { count: 3, max: 2 }
    );

    let limits = HfsmLimits {
        max_transitions: 1,
        ..HfsmLimits::default()
    };
    let err = compile(
        &spec(
            1,
            a_tree(),
            vec![external(1, 2, 1, 0, None, 3), external(2, 3, 1, 0, None, 2)],
        ),
        &limits,
    )
    .expect_err("2 transitions > 1");
    assert_eq!(
        err.kind,
        CompileErrorKind::TransitionCountExceeded { count: 2, max: 1 }
    );
}

#[test]
fn duplicate_priority_names_both_transitions() {
    // T09
    let err = compile_err(&spec(
        1,
        a_tree(),
        vec![
            external(1, 2, 1, 0, Some(1), 3),
            external(2, 2, 1, 0, Some(2), 3),
        ],
    ));
    assert_eq!(
        err.kind,
        CompileErrorKind::DuplicatePriority {
            other: TransitionId(1)
        }
    );
    assert_eq!(err.transition, Some(TransitionId(2)));
}

#[test]
fn transition_after_guardless_one_is_unreachable() {
    // T33: priority 0 has no guard, so priority 5 can never be selected.
    let err = compile_err(&spec(
        1,
        a_tree(),
        vec![
            external(1, 2, 1, 0, None, 3),
            external(2, 2, 1, 5, Some(1), 3),
        ],
    ));
    assert_eq!(
        err.kind,
        CompileErrorKind::UnreachableTransition {
            shadowed_by: TransitionId(1)
        }
    );
    assert_eq!(err.transition, Some(TransitionId(2)));

    // Guarded first, guardless last is fine.
    compile_ok(&spec(
        1,
        a_tree(),
        vec![
            external(1, 2, 1, 0, Some(1), 3),
            external(2, 2, 1, 5, None, 3),
        ],
    ));
}

#[test]
fn local_target_must_be_strict_descendant() {
    let self_target = compile_err(&spec(1, a_tree(), vec![local(1, 1, 1, 0, None, 1)]));
    assert_eq!(
        self_target.kind,
        CompileErrorKind::LocalTargetNotStrictDescendant
    );

    let sibling = compile_err(&spec(1, a_tree(), vec![local(1, 2, 1, 0, None, 3)]));
    assert_eq!(
        sibling.kind,
        CompileErrorKind::LocalTargetNotStrictDescendant
    );

    let ancestor = compile_err(&spec(1, a_tree(), vec![local(1, 2, 1, 0, None, 1)]));
    assert_eq!(
        ancestor.kind,
        CompileErrorKind::LocalTargetNotStrictDescendant
    );

    compile_ok(&spec(1, a_tree(), vec![local(1, 1, 1, 0, None, 3)]));
}

#[test]
fn external_transition_to_synthetic_root_is_impossible_but_any_state_is_allowed() {
    // External may target an ancestor, a sibling, or itself.
    compile_ok(&spec(
        1,
        a_tree(),
        vec![
            external(1, 2, 1, 0, None, 1),
            external(2, 2, 2, 0, None, 3),
            external(3, 2, 3, 0, None, 2),
        ],
    ));
}

#[test]
fn worst_case_plan_actions_are_bounded_at_compile_time() {
    // A(exit 1) initial A1(entry 2, exit 3); A1 --e--> A (External):
    // exit A1 (1) + exit A (1) + transition (1) + enter A (0) + enter A1 (1) = 4
    let s = spec(
        1,
        vec![
            st_actions(1, None, Some(2), &[], &[1]),
            st_actions(2, Some(1), None, &[2], &[3]),
        ],
        vec![TransitionSpec {
            actions: vec![ActionId(9)],
            ..external(1, 2, 1, 0, None, 1)
        }],
    );
    let def = compile_ok(&s);
    assert_eq!(def.max_plan_actions(), 4);

    let limits = HfsmLimits {
        max_actions_per_plan: 3,
        ..HfsmLimits::default()
    };
    let err = compile(&s, &limits).expect_err("4 > 3");
    assert_eq!(
        err.kind,
        CompileErrorKind::ActionsPerPlanExceeded {
            required: 4,
            max: 3
        }
    );
    assert_eq!(err.transition, Some(TransitionId(1)));
}

#[test]
fn start_expansion_counts_toward_plan_actions() {
    // Start enters A(entry 1,2) then A1(entry 3) = 3 actions, no transitions at all.
    let s = spec(
        1,
        vec![
            st_actions(1, None, Some(2), &[1, 2], &[]),
            st_actions(2, Some(1), None, &[3], &[]),
        ],
        vec![],
    );
    assert_eq!(compile_ok(&s).max_plan_actions(), 3);
    let limits = HfsmLimits {
        max_actions_per_plan: 2,
        ..HfsmLimits::default()
    };
    let err = compile(&s, &limits).expect_err("start needs 3");
    assert_eq!(
        err.kind,
        CompileErrorKind::ActionsPerPlanExceeded {
            required: 3,
            max: 2
        }
    );
    assert_eq!(err.transition, None);
}

#[test]
fn compiled_definition_exposes_structure() {
    let def = compile_ok(&workflow_spec());
    assert_eq!(def.root_initial(), StateId(1));
    assert_eq!(def.max_depth(), 3);
    assert_eq!(def.depth_of(StateId(1)), Some(1));
    assert_eq!(def.depth_of(StateId(4)), Some(3));
    assert_eq!(def.depth_of(StateId(99)), None);
    assert_eq!(def.parent_of(StateId(4)), Some(StateId(3)));
    assert_eq!(def.parent_of(StateId(1)), None);
    assert_eq!(def.is_leaf(StateId(4)), Some(true));
    assert_eq!(def.is_leaf(StateId(3)), Some(false));
    assert_eq!(
        def.initial_chain(StateId(1)),
        vec![StateId(2)]
    );
    assert_eq!(
        def.initial_chain(StateId(3)),
        vec![StateId(4)]
    );
    assert!(def.initial_chain(StateId(4)).is_empty());
    assert!(def.has_event(EventKind(7)));
    assert!(!def.has_event(EventKind(42)));
    assert_eq!(def.exit_actions(StateId(3)), &[ActionId(103)]);
    assert_eq!(def.entry_actions(StateId(4)), &[ActionId(101)]);
    let t = def.transition(TransitionId(7)).expect("Reset");
    assert_eq!(t.kind, TransitionKind::Local { target: StateId(2) });
    assert!(def.transition(TransitionId(70)).is_none());
}

// ---- shared builders ----


pub fn st(id: u32, parent: Option<u32>, initial: Option<u32>) -> StateSpec {
    StateSpec {
        id: StateId(id),
        parent: parent.map(StateId),
        initial: initial.map(StateId),
        entry: Vec::new(),
        exit: Vec::new(),
        name: None,
    }
}

pub fn st_actions(
    id: u32,
    parent: Option<u32>,
    initial: Option<u32>,
    entry: &[u32],
    exit: &[u32],
) -> StateSpec {
    let mut s = st(id, parent, initial);
    s.entry = entry.iter().map(|a| ActionId(*a)).collect();
    s.exit = exit.iter().map(|a| ActionId(*a)).collect();
    s
}

pub fn external(
    id: u32,
    source: u32,
    event: u32,
    priority: u32,
    guard: Option<u32>,
    target: u32,
) -> TransitionSpec {
    TransitionSpec {
        id: TransitionId(id),
        source: StateId(source),
        event: EventKind(event),
        priority,
        guard: guard.map(GuardId),
        kind: TransitionKind::External {
            target: StateId(target),
        },
        actions: Vec::new(),
    }
}

pub fn local(
    id: u32,
    source: u32,
    event: u32,
    priority: u32,
    guard: Option<u32>,
    target: u32,
) -> TransitionSpec {
    TransitionSpec {
        kind: TransitionKind::Local {
            target: StateId(target),
        },
        ..external(id, source, event, priority, guard, target)
    }
}

pub fn internal(
    id: u32,
    source: u32,
    event: u32,
    priority: u32,
    guard: Option<u32>,
) -> TransitionSpec {
    TransitionSpec {
        kind: TransitionKind::Internal,
        ..external(id, source, event, priority, guard, source)
    }
}

pub fn spec(
    initial: u32,
    states: Vec<StateSpec>,
    transitions: Vec<TransitionSpec>,
) -> DefinitionSpec {
    DefinitionSpec {
        format_version: FORMAT_VERSION,
        initial: StateId(initial),
        states,
        transitions,
    }
}

/// Root └─ A(initial A1) ├─ A1 └─ A2   (contract §4.1)
pub fn a_tree() -> Vec<StateSpec> {
    vec![
        st(1, None, Some(2)),
        st(2, Some(1), None),
        st(3, Some(1), None),
    ]
}

/// v0.1 §15.1 content-loading workflow.
pub fn workflow_spec() -> DefinitionSpec {
    spec(
        1,
        vec![
            st(1, None, Some(2)),
            st(2, Some(1), None),
            st_actions(3, Some(1), Some(4), &[], &[103]),
            st_actions(4, Some(3), None, &[101], &[]),
            st_actions(5, Some(3), None, &[102], &[]),
            st(6, Some(1), None),
            st(7, Some(1), None),
            st(8, Some(1), None),
        ],
        vec![
            external(1, 2, 1, 0, Some(1), 3),
            external(2, 4, 2, 0, None, 5),
            external(3, 4, 3, 0, None, 7),
            external(4, 5, 4, 0, None, 6),
            external(5, 5, 5, 0, None, 7),
            external(6, 3, 6, 0, None, 8),
            local(7, 1, 7, 0, None, 2),
        ],
    )
}

pub fn compile_ok(spec: &DefinitionSpec) -> CompiledDefinition {
    compile(spec, &HfsmLimits::default()).expect("spec should compile")
}

pub fn compile_err(spec: &DefinitionSpec) -> CompileError {
    compile(spec, &HfsmLimits::default()).expect_err("spec should be rejected")
}

// ---- evaluator helpers (H03) ----

/// §4.1 A-tree with distinguishable actions: A entry 10 / exit 11, A1 20/21, A2 30/31.
pub fn a_tree_actions() -> Vec<StateSpec> {
    vec![
        st_actions(1, None, Some(2), &[10], &[11]),
        st_actions(2, Some(1), None, &[20], &[21]),
        st_actions(3, Some(1), None, &[30], &[31]),
    ]
}

pub fn with_action(mut t: TransitionSpec, action: u32) -> TransitionSpec {
    t.actions.push(ActionId(action));
    t
}

pub fn snap(
    def: &CompiledDefinition,
    key: u64,
    epoch: u64,
    step: u64,
    next: u64,
    path: &[(u32, u64)],
) -> Snapshot {
    Snapshot {
        fingerprint: def.fingerprint(),
        machine_key: MachineKey(key),
        epoch: MachineEpoch(epoch),
        step_seq: StepSeq(step),
        next_activation_seq: ActivationSeq(next),
        lifecycle: if path.is_empty() {
            Lifecycle::NotStarted
        } else {
            Lifecycle::Running
        },
        active_path: path
            .iter()
            .map(|(s, seq)| ActiveState {
                state: StateId(*s),
                activation_seq: ActivationSeq(*seq),
            })
            .collect(),
    }
}

pub fn path(path: &[(u32, u64)]) -> Vec<ActiveState> {
    path.iter()
        .map(|(s, seq)| ActiveState {
            state: StateId(*s),
            activation_seq: ActivationSeq(*seq),
        })
        .collect()
}

pub fn start_item<'a>(def: &'a CompiledDefinition, key: u64, epoch: u64) -> BatchItem<'a> {
    BatchItem {
        machine_key: MachineKey(key),
        definition: def,
        kind: ItemKind::Start {
            epoch: MachineEpoch(epoch),
        },
        snapshot: None,
        guards: GuardFrame::new(&[]),
        scope: None,
    }
}

pub fn event_item<'a>(
    def: &'a CompiledDefinition,
    snapshot: &'a Snapshot,
    event: u32,
    guards: &'a [(GuardId, bool)],
) -> BatchItem<'a> {
    BatchItem {
        machine_key: snapshot.machine_key,
        definition: def,
        kind: ItemKind::Event {
            event: EventKind(event),
        },
        snapshot: Some(snapshot),
        guards: GuardFrame::new(guards),
        scope: None,
    }
}

pub fn stop_item<'a>(def: &'a CompiledDefinition, snapshot: &'a Snapshot) -> BatchItem<'a> {
    BatchItem {
        machine_key: snapshot.machine_key,
        definition: def,
        kind: ItemKind::Stop,
        snapshot: Some(snapshot),
        guards: GuardFrame::new(&[]),
        scope: None,
    }
}

#[derive(Debug)]
pub struct Run {
    pub status: BatchStatus,
    pub items: Vec<ItemPlan>,
    pub paths: Vec<ActiveState>,
    pub actions: Vec<ActionRecord>,
}

impl Run {
    pub fn plan(&self, i: usize) -> &ItemPlan {
        &self.items[i]
    }

    pub fn path_of(&self, i: usize) -> &[ActiveState] {
        let p = &self.items[i];
        &self.paths[p.path_start as usize..(p.path_start + p.path_len) as usize]
    }

    pub fn actions_of(&self, i: usize) -> &[ActionRecord] {
        let p = &self.items[i];
        &self.actions[p.action_start as usize..(p.action_start + p.action_len) as usize]
    }

    pub fn next_snapshot(&self, i: usize) -> Snapshot {
        Snapshot::from_plan(&self.items[i], &self.paths).expect("item has a next snapshot")
    }

    /// (phase, action, state, activation_seq) tuples for compact assertions.
    pub fn records(&self, i: usize) -> Vec<(ActionPhase, u32, u32, u64)> {
        self.actions_of(i)
            .iter()
            .map(|r| (r.phase, r.action.0, r.state.0, r.activation_seq.0))
            .collect()
    }
}

/// Evaluate with generously sized caller buffers.
pub fn run(items: &[BatchItem<'_>]) -> Result<Run, HfsmError> {
    run_with(items, &HfsmLimits::default(), 4096, 4096)
}

pub fn run_with(
    items: &[BatchItem<'_>],
    limits: &HfsmLimits,
    path_cap: usize,
    action_cap: usize,
) -> Result<Run, HfsmError> {
    let mut plans = vec![ItemPlan::empty(); items.len()];
    let mut paths = vec![ActiveState::empty(); path_cap];
    let mut actions = vec![ActionRecord::empty(); action_cap];
    let mut scratch = Scratch::new(limits);
    let status = evaluate_batch(
        items,
        limits,
        PlanOutput {
            items: &mut plans,
            paths: &mut paths,
            actions: &mut actions,
        },
        &mut scratch,
    )?;
    paths.truncate(status.paths_written as usize);
    actions.truncate(status.actions_written as usize);
    Ok(Run {
        status,
        items: plans,
        paths,
        actions,
    })
}

pub fn started(def: &CompiledDefinition, key: u64, epoch: u64) -> Snapshot {
    let r = run(&[start_item(def, key, epoch)]).expect("start batch");
    assert_eq!(r.plan(0).outcome, Outcome::Started);
    r.next_snapshot(0)
}
