//! Default-feature regressions for generation safety and bounded work.
use lumio_core::timer::error::TimerError;
use lumio_core::timer::ids::{
    CallbackSlot, DispatchId, ScopeKind, TimerBudget, TimerLimits, TimerMode, TimerScope,
};
use lumio_core::timer::manager::TimerManager;

fn setup(limits: TimerLimits) -> (TimerManager, TimerScope, CallbackSlot) {
    let mut manager = TimerManager::with_limits(1, limits);
    let scope = manager.register_scope(1, ScopeKind::World).unwrap();
    let slot = manager.create_slot().unwrap();
    manager.bind_slot(slot, DispatchId::from_raw(7)).unwrap();
    (manager, scope, slot)
}

#[test]
fn stale_queued_error_cannot_retire_reused_timer_slot() {
    let limits = TimerLimits {
        delivery_queue_depth_per_slot: 1,
        ..TimerLimits::contract()
    };
    let (mut manager, scope, slot) = setup(limits);
    let old = manager.schedule_repeating(scope, 1, 1, slot).unwrap();
    let first = manager.advance(2).unwrap();
    assert_eq!(first.firings().len(), 1);
    assert_eq!(first.rejections()[0].code, TimerError::SlotQueueFull);
    let next_slot = manager.create_slot().unwrap();
    manager
        .bind_slot(next_slot, DispatchId::from_raw(8))
        .unwrap();
    let new = manager.schedule_one_shot(scope, 3, next_slot).unwrap();
    assert_eq!(old.index(), new.index());
    assert_ne!(old.generation(), new.generation());
    manager.remove_dispatch_binding(DispatchId::from_raw(7));
    assert_eq!(
        manager.drain().rejections()[0].code,
        TimerError::SlotDispatchMismatch
    );
    assert_eq!(manager.cancel(new), Ok(true));
}

#[test]
fn excessive_catchup_is_rejected_before_commit_or_queue_changes() {
    let budget = TimerBudget {
        max_firings_per_advance: 4,
        ..TimerBudget::default()
    };
    let mut manager =
        TimerManager::try_with_budget(1, TimerMode::WallClock, TimerLimits::contract(), budget)
            .unwrap();
    let scope = manager.register_scope(1, ScopeKind::Adapter).unwrap();
    let slot = manager.create_slot().unwrap();
    manager.bind_slot(slot, DispatchId::from_raw(1)).unwrap();
    manager.schedule_repeating(scope, 1, 1, slot).unwrap();
    assert_eq!(
        manager.pump(86_400_000),
        Err(TimerError::ScheduleBudgetExceeded)
    );
    assert_eq!(manager.committed_tick(), 0);
    assert_eq!(manager.pending_record_count(), 0);
    assert_eq!(manager.live_timer_count(), 1);
    assert_eq!(manager.pump(4).unwrap().firings().len(), 4);
}

#[test]
fn zero_interval_configuration_cannot_enter_advance_loop() {
    let mut manager = TimerManager::with_limits(
        1,
        TimerLimits {
            min_interval_ticks: 0,
            ..TimerLimits::contract()
        },
    );
    assert_eq!(manager.create_slot(), Err(TimerError::InvalidInterval));
    assert_eq!(manager.advance(100), Err(TimerError::InvalidInterval));
}

#[test]
fn invalid_queue_entries_count_until_drained() {
    let (mut manager, scope, slot) = setup(TimerLimits {
        delivery_queue_depth_per_slot: 1,
        ..TimerLimits::contract()
    });
    let first = manager.schedule_one_shot(scope, 1, slot).unwrap();
    manager.advance(1).unwrap();
    manager.cancel(first).unwrap();
    manager.schedule_one_shot(scope, 2, slot).unwrap();
    assert_eq!(
        manager.advance(2).unwrap().rejections()[0].code,
        TimerError::SlotQueueFull
    );
    assert_eq!(manager.drain().rejections().len(), 1);
    manager.schedule_one_shot(scope, 3, slot).unwrap();
    assert_eq!(manager.advance(3).unwrap().firings().len(), 1);
}

#[test]
fn scope_tombstones_and_slots_obey_manager_budget() {
    let budget = TimerBudget {
        max_scopes: 1,
        max_slots: 1,
        ..TimerBudget::default()
    };
    let mut manager =
        TimerManager::try_with_budget(1, TimerMode::TickFrame, TimerLimits::contract(), budget)
            .unwrap();
    let first = manager.register_scope(1, ScopeKind::World).unwrap();
    manager.destroy_scope(1).unwrap();
    assert_eq!(
        manager.register_scope(2, ScopeKind::World),
        Err(TimerError::ScheduleBudgetExceeded)
    );
    let second = manager.register_scope(1, ScopeKind::World).unwrap();
    assert_ne!(first.generation(), second.generation());
    manager.create_slot().unwrap();
    assert_eq!(
        manager.create_slot(),
        Err(TimerError::ScheduleBudgetExceeded)
    );
}

#[test]
fn cancelled_timer_never_fires() {
    let (mut manager, scope, slot) = setup(TimerLimits::contract());
    let handle = manager.schedule_one_shot(scope, 5, slot).unwrap();
    let kept = manager.schedule_one_shot(scope, 6, slot).unwrap();
    assert_eq!(manager.cancel(handle), Ok(true));
    let report = manager.advance(10).unwrap();
    assert_eq!(report.firings().len(), 1);
    assert_eq!(report.firings()[0].handle, kept);
    assert_eq!(manager.cancel(handle), Err(TimerError::StaleHandle));
}

#[test]
fn repeating_timer_catches_up_in_due_order() {
    let (mut manager, scope, slot) = setup(TimerLimits::contract());
    let every_two = manager.schedule_repeating(scope, 2, 2, slot).unwrap();
    let once = manager.schedule_one_shot(scope, 3, slot).unwrap();
    let report = manager.advance(6).unwrap();
    let dues: Vec<(u64, bool)> = report
        .firings()
        .iter()
        .map(|f| (f.due_tick, f.handle == every_two))
        .collect();
    assert_eq!(dues, vec![(2, true), (3, false), (4, true), (6, true)]);
    assert_eq!(report.firings()[1].handle, once);
    assert!(report.rejections().is_empty());
    let drained = manager.drain();
    assert_eq!(drained.records().len(), 4);
    assert_eq!(manager.pending_record_count(), 0);
}

#[test]
fn exhausted_timer_slot_is_never_reused() {
    let (mut manager, scope, slot) = setup(TimerLimits::contract());
    let first = manager.schedule_one_shot(scope, 5, slot).unwrap();
    let last = manager.force_timer_generation(first, u32::MAX - 1);
    assert_eq!(manager.cancel(last), Ok(true));
    let next = manager.schedule_one_shot(scope, 6, slot).unwrap();
    assert_ne!(next.index(), first.index());
    assert_eq!(next.generation(), 1);
    assert_eq!(manager.cancel(last), Err(TimerError::StaleHandle));
    let again = manager.schedule_one_shot(scope, 7, slot).unwrap();
    assert_ne!(again.index(), first.index());
}

#[test]
fn every_firing_falls_after_the_committed_tick() {
    let (mut manager, scope, slot) = setup(TimerLimits::contract());
    manager.schedule_repeating(scope, 3, 4, slot).unwrap();
    let first = manager.advance(5).unwrap();
    assert_eq!(first.firings().iter().map(|f| f.due_tick).collect::<Vec<_>>(), vec![3]);
    let second = manager.advance(12).unwrap();
    assert_eq!(second.firings().iter().map(|f| f.due_tick).collect::<Vec<_>>(), vec![7, 11]);
    assert!(second.firings().iter().all(|f| f.due_tick > 5));
}

#[test]
fn cancel_is_once_and_shutdown_refuses_work() {
    let (mut manager, scope, slot) = setup(TimerLimits::contract());
    let h = manager.schedule_one_shot(scope, 4, slot).unwrap();
    assert_eq!(manager.cancel(h), Ok(true));
    assert_eq!(manager.cancel(h), Err(TimerError::StaleHandle));
    manager.close_slot(slot).unwrap();
    assert_eq!(manager.bind_slot(slot, DispatchId::from_raw(7)), Err(TimerError::SlotClosed));
    assert_eq!(manager.schedule_one_shot(scope, 5, slot), Err(TimerError::SlotClosed));
    manager.destroy_scope(1).unwrap();
    let again = manager.register_scope(1, ScopeKind::World).unwrap();
    assert!(again.generation() > scope.generation());
    manager.shutdown();
    assert_eq!(manager.advance(9).unwrap_err(), TimerError::ManagerShutdown);
    assert_eq!(manager.cancel(h), Err(TimerError::ManagerShutdown));
    assert_eq!(manager.schedule_one_shot(again, 10, slot), Err(TimerError::ManagerShutdown));
}
