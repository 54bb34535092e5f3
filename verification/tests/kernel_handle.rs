use lumio_core::kernel::error::ErrorCategory;
use lumio_core::kernel::handle::{ContextKey, Generation, HandleArena};

#[test]
fn released_handle_is_refused_after_its_slot_is_reused() {
    let mut arena: HandleArena<u32> = HandleArena::with_capacity(ContextKey::new(1), 1);
    let first = arena.insert(10).unwrap();
    assert_eq!(arena.remove(first).unwrap(), 10);
    assert_eq!(arena.get(first).unwrap_err().category(), ErrorCategory::AlreadyReleased);
    let second = arena.insert(20).unwrap();
    assert_eq!(second.key().slot, first.key().slot);
    assert_ne!(second.key(), first.key());
    assert_eq!(arena.get(first).unwrap_err().category(), ErrorCategory::InvalidHandle);
    assert_eq!(*arena.get(second).unwrap(), 20);
}

#[test]
fn exhausted_generation_retires_the_slot() {
    let mut arena: HandleArena<u32> = HandleArena::with_capacity(ContextKey::new(1), 1);
    arena.force_generation(0, Generation::new(u32::MAX));
    let h = arena.insert(1).unwrap();
    assert_eq!(h.key().generation, Generation::new(u32::MAX));
    assert_eq!(arena.remove(h).unwrap(), 1);
    assert_eq!(arena.retired_slots(), 1);
    assert_eq!(arena.insert(2).err().unwrap().category(), ErrorCategory::CapacityExceeded);
    assert_eq!(arena.get(h).unwrap_err().category(), ErrorCategory::AlreadyReleased);
}

#[test]
fn handles_of_another_context_are_refused_first() {
    let mut a: HandleArena<u32> = HandleArena::with_capacity(ContextKey::new(1), 2);
    let mut b: HandleArena<u32> = HandleArena::with_capacity(ContextKey::new(2), 2);
    let h = a.insert(5).unwrap();
    b.insert(6).unwrap();
    assert_eq!(b.get(h).unwrap_err().category(), ErrorCategory::WrongContext);
    assert_eq!(b.remove(h).unwrap_err().category(), ErrorCategory::WrongContext);
    assert_eq!(a.len(), 1);
    assert_eq!(a.capacity(), 2);
}
