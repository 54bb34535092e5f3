use lumio_core::kernel::capability::{ConfiguredLimits, ContextConfig};
use lumio_core::kernel::context::{CancelReason, ContextResource, Deadline, QuiesceReport, QuiesceState};
use lumio_core::kernel::error::{ErrorCategory, ErrorDetail, KernelResult};
use lumio_core::kernel::memory::MemoryBudget;
use lumio_core::kernel::registry::{ResourceRegistration, ResourceRegistry};

#[derive(Clone, Debug, PartialEq)]
struct Named(&'static str);

impl ContextResource for Named {
    fn name(&self) -> &'static str {
        self.0
    }
    fn cancel_requested(&self, _: CancelReason) {}
    fn quiesce(&self, _: Deadline) -> KernelResult<QuiesceReport> {
        Ok(QuiesceReport { state: QuiesceState::Quiesced })
    }
    fn destroy(&self) -> KernelResult<()> {
        Ok(())
    }
}

#[test]
fn registrations_are_numbered_in_order() {
    let mut registry = ResourceRegistry::new();
    assert_eq!(registry.register(Named("a")).unwrap(), ResourceRegistration { index: 0, name: "a" });
    assert_eq!(registry.register(Named("b")).unwrap(), ResourceRegistration { index: 1, name: "b" });
    assert_eq!(registry.snapshot_names(), vec!["a", "b"]);
    assert_eq!(registry.snapshot(), vec![Named("a"), Named("b")]);
    assert_eq!(registry.len(), 2);
    registry.clear();
    assert_eq!(registry.len(), 0);
    assert!(registry.snapshot_names().is_empty());
}

#[test]
fn registration_beyond_the_limit_is_refused_with_its_numbers() {
    let mut registry = ResourceRegistry::new();
    registry.register_named("a", Named("a"), 1).unwrap();
    let e = registry.register_named("b", Named("b"), 1).unwrap_err();
    assert_eq!(e.category(), ErrorCategory::CapacityExceeded);
    assert_eq!(*e.detail(), ErrorDetail::LimitExceeded { limit: 1, requested: 2 });
    assert_eq!(registry.len(), 1);
    let e = registry.register_named("c", Named("c"), 0).unwrap_err();
    assert_eq!(*e.detail(), ErrorDetail::LimitExceeded { limit: 0, requested: 2 });
}

#[test]
fn budget_charges_and_releases() {
    let mut budget = MemoryBudget::new(10);
    budget.try_reserve(6).unwrap();
    assert_eq!(budget.charged(), 6);
    let e = budget.try_reserve(5).unwrap_err();
    assert_eq!(e.category(), ErrorCategory::CapacityExceeded);
    assert_eq!(*e.detail(), ErrorDetail::LimitExceeded { limit: 10, requested: 11 });
    assert_eq!(budget.charged(), 6);
    budget.try_reserve(4).unwrap();
    budget.release(6);
    assert_eq!(budget.charged(), 4);
    budget.release(100);
    assert_eq!(budget.charged(), 0);
    assert_eq!(budget.limit(), 10);
}

#[test]
fn context_config_needs_every_ceiling() {
    let limits = ConfiguredLimits {
        max_handles: 8,
        max_native_bytes: 256,
        max_jobs_queued: 2,
        max_jobs_running: 2,
        max_completion_items: 2,
    };
    let config = ContextConfig { limits, quiesce_deadline: Deadline::none() };
    assert!(config.validate().is_ok());
    let zero = ContextConfig { limits: ConfiguredLimits { max_jobs_running: 0, ..limits }, ..config };
    assert_eq!(zero.validate().unwrap_err().category(), ErrorCategory::InvalidArgument);
}
