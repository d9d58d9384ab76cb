//! Utilities.

use vstd::prelude::*;

verus! {

/// A value paired with a function to run on it when the value is released.
///
/// The function is run by [`DropGuard::release`]; the value can be read
/// and replaced until then.
pub struct DropGuard<T, F: FnOnce(T)> {
    inner: T,
    on_drop: F,
}

impl<T, F: FnOnce(T)> DropGuard<T, F> {
    #[verifier::type_invariant]
    spec fn inv(self) -> bool {
        forall|x: T| #[trigger] self.on_drop.requires((x,))
    }

    /// The wrapped value.
    pub closed spec fn value(&self) -> T {
        self.inner
    }

    /// The function to run on release.
    pub closed spec fn on_drop(&self) -> F {
        self.on_drop
    }

    /// Wrap `inner` so that `drop` is called with it when the guard is
    /// released.
    pub fn new(inner: T, drop: F) -> (r: Self)
        requires
            forall|x: T| #[trigger] drop.requires((x,)),
        ensures
            r.value() == inner,
            r.on_drop() == drop,
    {
        DropGuard { inner, on_drop: drop }
    }

    /// The wrapped value.
    pub fn get(&self) -> (r: &T)
        ensures
            *r == self.value(),
    {
        &self.inner
    }

    /// Replace the wrapped value.
    pub fn set(&mut self, value: T)
        ensures
            final(self).value() == value,
            final(self).on_drop() == old(self).on_drop(),
    {
        proof {
            use_type_invariant(&*self);
        }
        self.inner = value;
    }

    /// Release the guard: call the function with the wrapped value.
    pub fn release(self)
        ensures
            call_ensures(self.on_drop(), (self.value(),), ()),
    {
        proof {
            use_type_invariant(&self);
        }
        let DropGuard { inner, on_drop } = self;
        on_drop(inner)
    }
}

} // verus!
