//! Ordered resource ownership for a context.
use vstd::prelude::*;
use crate::kernel::context::ContextResource;
use crate::kernel::error::{ErrorCategory, ErrorDetail, KernelError};

verus! {

/// Where a resource was registered, and under which name.
#[derive(Clone, Copy, Debug, PartialEq, Eq)]
pub struct ResourceRegistration {
    pub index: u32,
    pub name: &'static str,
}

/// The resources of a context, in registration order, each with the name it was
/// registered under.
pub struct ResourceRegistry<R> {
    items: Vec<R>,
    names: Vec<&'static str>,
}

impl<R> ResourceRegistry<R> {
    /// A registration beyond `u32::MAX` resources is refused, so the count fits a `u32`;
    /// every resource has its name.
    #[verifier::type_invariant]
    spec fn inv(&self) -> bool {
        &&& self.items.len() <= u32::MAX
        &&& self.names.len() == self.items.len()
    }

    /// The names the resources were registered under, in registration order.
    pub closed spec fn spec_names(&self) -> Seq<&'static str> {
        self.names@
    }
}

impl<R> View for ResourceRegistry<R> {
    type V = Seq<R>;

    closed spec fn view(&self) -> Seq<R> {
        self.items@
    }
}

/// The error of a registration beyond `limit` resources, `len` being held.
pub open spec fn capacity_error(limit: u32, len: nat) -> KernelError {
    KernelError {
        category: ErrorCategory::CapacityExceeded,
        detail: ErrorDetail::LimitExceeded { limit: limit as u64, requested: (len + 1) as u64 },
    }
}

impl<R: ContextResource + Clone> ResourceRegistry<R> {
    pub fn new() -> (r: Self)
        ensures
            r@ == Seq::<R>::empty(),
            r.spec_names() == Seq::<&'static str>::empty(),
    {
        ResourceRegistry { items: Vec::new(), names: Vec::new() }
    }

    /// Registers `resource` under the name it gives, with no limit but `u32::MAX`.
    pub fn register(&mut self, resource: R) -> (r: Result<ResourceRegistration, KernelError>)
        ensures
            old(self)@.len() >= u32::MAX ==> r == Err::<ResourceRegistration, KernelError>(
                capacity_error(u32::MAX, old(self)@.len()),
            ) && final(self)@ == old(self)@ && final(self).spec_names() == old(self).spec_names(),
            old(self)@.len() < u32::MAX ==> r is Ok && r->Ok_0.index == old(self)@.len()
                && final(self)@ == old(self)@.push(resource)
                && final(self).spec_names() == old(self).spec_names().push(r->Ok_0.name)
                && call_ensures(R::name, (&resource,), r->Ok_0.name),
    {
        let name = resource.name();
        self.register_named(name, resource, u32::MAX)
    }

    /// Registers `resource` as `name` unless `limit` resources are already held.
    pub fn register_named(&mut self, name: &'static str, resource: R, limit: u32) -> (r: Result<
        ResourceRegistration,
        KernelError,
    >)
        ensures
            old(self)@.len() >= limit ==> r == Err::<ResourceRegistration, KernelError>(
                capacity_error(limit, old(self)@.len()),
            ) && final(self)@ == old(self)@ && final(self).spec_names() == old(self).spec_names(),
            old(self)@.len() < limit ==> r == Ok::<ResourceRegistration, KernelError>(
                ResourceRegistration { index: old(self)@.len() as u32, name },
            ) && final(self)@ == old(self)@.push(resource) && final(self).spec_names() == old(self).spec_names().push(name),
    {
        proof {
            use_type_invariant(&*self);
        }
        let len = self.items.len();
        if len >= limit as usize {
            return Err(
                KernelError {
                    category: ErrorCategory::CapacityExceeded,
                    detail: ErrorDetail::LimitExceeded {
                        limit: limit as u64,
                        requested: len as u64 + 1,
                    },
                },
            );
        }
        let index = len as u32;
        let mut taken = ResourceRegistry { items: Vec::new(), names: Vec::new() };
        std::mem::swap(&mut taken, self);
        let ResourceRegistry { mut items, mut names } = taken;
        items.push(resource);
        names.push(name);
        *self = ResourceRegistry { items, names };
        Ok(ResourceRegistration { index, name })
    }

    /// The name each resource was registered under, in registration order.
    pub fn snapshot_names(&self) -> (r: Vec<&'static str>)
        ensures
            r@ == self.spec_names(),
            r@.len() == self@.len(),
    {
        proof {
            use_type_invariant(self);
        }
        self.names.clone()
    }

    /// A copy of the resource set, in registration order.
    pub fn snapshot(&self) -> (r: Vec<R>)
        ensures
            r@.len() == self@.len(),
            forall|i: int| 0 <= i < r@.len() ==> cloned::<R>(#[trigger] self@[i], r@[i]),
    {
        self.items.clone()
    }

    /// Drops every resource.
    pub fn clear(&mut self)
        ensures
            final(self)@ == Seq::<R>::empty(),
            final(self).spec_names() == Seq::<&'static str>::empty(),
    {
        *self = ResourceRegistry { items: Vec::new(), names: Vec::new() };
    }

    pub fn len(&self) -> (n: usize)
        ensures
            n == self@.len(),
    {
        proof {
            use_type_invariant(self);
        }
        self.items.len()
    }
}

} // verus!

