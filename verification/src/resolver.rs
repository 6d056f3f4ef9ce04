use vstd::prelude::*;
use std::sync::atomic::{AtomicBool, Ordering};
use std::sync::{Arc, OnceLock};

verus! {

#[verifier::external_type_specification]
#[verifier::external_body]
#[verifier::reject_recursive_types(T)]
pub struct ExOnceLock<T>(OnceLock<T>);

/// `OnceLock::new`: an empty cell.
#[verifier::external_body]
fn once_new<T>() -> OnceLock<T> {
    OnceLock::new()
}

/// `OnceLock::get`: the value stored so far, if any. What it returns depends
/// on earlier calls of `set` on the same cell (through any handle), which the
/// contract does not follow, so it states nothing of the result.
#[verifier::external_body]
fn once_get<T>(cell: &OnceLock<T>) -> Option<&T> {
    cell.get()
}

/// `OnceLock::set`: stores `value` if the cell is empty; otherwise hands
/// `value` back unchanged in the error.
#[verifier::external_body]
fn once_set<T>(cell: &OnceLock<T>, value: T) -> (r: Result<(), T>)
    ensures
        r matches Err(v) ==> v == value,
{
    cell.set(value)
}

#[verifier::reject_recursive_types(T)]
struct Slot<T> {
    value: OnceLock<T>,
    resolver_taken: AtomicBool,
}

/// A value that is not known when it is declared: one `Resolver` fills it in
/// later, and every clone of the handle reads the same value.
#[verifier::reject_recursive_types(T)]
pub struct Resolvable<T> {
    slot: Arc<Slot<T>>,
}

/// The one-shot write authority of a `Resolvable`.
#[verifier::reject_recursive_types(T)]
pub struct Resolver<T> {
    slot: Arc<Slot<T>>,
}

impl<T> Resolvable<T> {
    /// `other` is a handle on the same slot as `self`.
    pub closed spec fn same_slot(&self, other: &Resolvable<T>) -> bool {
        self.slot == other.slot
    }

    /// `r` writes into the slot of `self`.
    pub closed spec fn resolved_by(&self, r: &Resolver<T>) -> bool {
        self.slot == r.slot
    }

    /// `r` is what the slot's cell answered when read.
    pub closed spec fn read_gives(&self, r: Option<&T>) -> bool {
        call_ensures(once_get::<T>, (&self.slot.value,), r)
    }

    /// `taken` is what the slot's flag held when it was set to taken.
    pub closed spec fn flag_was(&self, taken: bool) -> bool {
        call_ensures(AtomicBool::swap, (&self.slot.resolver_taken, true, Ordering::AcqRel), taken)
    }

    pub fn new() -> (r: Self) {
        let slot = Slot { value: once_new(), resolver_taken: AtomicBool::new(false) };
        Resolvable { slot: Arc::new(slot) }
    }

    /// Hands out the one-shot write authority. Only the first call on the
    /// slot (through this handle or any clone) gets it; later calls get
    /// `None`.
    pub fn resolver(&self) -> (r: Option<Resolver<T>>)
        ensures
            r matches Some(res) ==> self.resolved_by(&res),
            exists|taken: bool| #[trigger] self.flag_was(taken) && (r is Some <==> !taken),
    {
        let taken = self.slot.resolver_taken.swap(true, Ordering::AcqRel);
        proof {
            assert(self.flag_was(taken));
        }
        if taken {
            None
        } else {
            Some(Resolver { slot: self.slot.clone() })
        }
    }

    /// The resolved value, or `None` while no `Resolver` has resolved the
    /// slot.
    pub fn value(&self) -> (r: Option<&T>)
        ensures
            self.read_gives(r),
    {
        once_get(&self.slot.value)
    }

}

impl<T> Clone for Resolvable<T> {
    /// Another handle on the same slot.
    fn clone(&self) -> (r: Self)
        ensures
            r.same_slot(self),
    {
        Resolvable { slot: self.slot.clone() }
    }
}

impl<T> Default for Resolvable<T> {
    fn default() -> (r: Self) {
        Self::new()
    }
}

impl<T> Resolver<T> {
    /// `r` is what the slot's cell answered when asked to store `value`.
    pub closed spec fn stores(&self, value: T, r: Result<(), T>) -> bool {
        call_ensures(once_set::<T>, (&self.slot.value, value), r)
    }

    /// Stores `value` in the slot. The value comes back in the error if the
    /// slot already holds one.
    pub fn resolve(self, value: T) -> (r: Result<(), T>)
        ensures
            r matches Err(v) ==> v == value,
            self.stores(value, r),
    {
        once_set(&self.slot.value, value)
    }
}

} // verus!
