//! The lock through which the handles of a queue share its core.

use std::sync::{Mutex, MutexGuard, TryLockError};
use vstd::prelude::*;

verus! {

#[verifier::external_type_specification]
#[verifier::external_body]
#[verifier::reject_recursive_types(T)]
pub struct ExMutex<T: ?Sized>(Mutex<T>);

#[verifier::external_type_specification]
#[verifier::external_body]
#[verifier::reject_recursive_types(T)]
pub struct ExMutexGuard<'a, T: ?Sized + 'a>(MutexGuard<'a, T>);

/// `std::sync::Mutex::new`: wraps `value` in a new lock. Nothing is stated
/// of the result: what the lock holds is not visible to the proofs.
#[verifier::external_body]
pub(crate) fn new_lock<T>(value: T) -> Mutex<T> {
    Mutex::new(value)
}

/// `std::sync::Mutex::try_lock`: the guard when the lock could be taken at
/// once (a poisoned lock is entered all the same, `PoisonError::into_inner`),
/// `None` when it is held. std documents no panic for it. Nothing is stated
/// of the outcome or of the guard.
#[verifier::external_body]
pub(crate) fn try_lock<T>(m: &Mutex<T>) -> Option<MutexGuard<'_, T>>
    opens_invariants none
    no_unwind
{
    match m.try_lock() {
        Ok(g) => Some(g),
        Err(TryLockError::Poisoned(e)) => Some(e.into_inner()),
        Err(TryLockError::WouldBlock) => None,
    }
}

/// Takes the lock without ever unwinding or blocking for good: it tries
/// again while another thread holds the lock, and gives up after `u64::MAX`
/// tries. (Unlike `Mutex::lock`, a call by the thread that already holds the
/// lock gives up instead of deadlocking or panicking.) A handle that cannot
/// take the lock answers as for a queue whose core is gone.
pub(crate) fn acquire<T>(m: &Mutex<T>) -> Option<MutexGuard<'_, T>>
    opens_invariants none
    no_unwind
{
    let mut tries: u64 = 0;
    loop
        decreases u64::MAX - tries,
    {
        match try_lock(m) {
            Some(g) => return Some(g),
            None => {
                if tries == u64::MAX {
                    return None;
                }
                tries = tries + 1;
            },
        }
    }
}

/// `DerefMut` of `std::sync::MutexGuard`: the value that the lock protects.
/// Nothing is stated of that value beyond the type invariant of its type.
#[verifier::external_body]
pub(crate) fn guarded<'a, 'b, T>(g: &'a mut MutexGuard<'b, T>) -> &'a mut T
    opens_invariants none
    no_unwind
{
    &mut **g
}

/// A value whose consistency predicate is stated by its type.
pub trait Core {
    spec fn wf(&self) -> bool;
}

/// The slot inside a lock that holds a queue's core. Whoever enters the lock
/// takes the core out, works on it and puts it back; the slot is empty only
/// if an operation was cut short by a panic, and a queue in that state acts
/// as closed.
pub struct Checked<C: Core> {
    pub(crate) core: Option<C>,
}

impl<C: Core> Checked<C> {
    #[verifier::type_invariant]
    pub(crate) open spec fn inv(self) -> bool {
        self.core matches Some(c) ==> c.wf()
    }

    pub(crate) fn new(core: C) -> (r: Self)
        requires
            core.wf(),
        ensures
            r.core == Some(core),
    {
        Checked { core: Some(core) }
    }

    /// Takes the core out of the slot.
    pub(crate) fn take(&mut self) -> (r: Option<C>)
        ensures
            r matches Some(c) ==> c.wf(),
            r == old(self).core,
            final(self).core is None,
        opens_invariants none
        no_unwind
    {
        proof { use_type_invariant(&*self); }
        let mut r = None;
        std::mem::swap(&mut self.core, &mut r);
        r
    }

    /// Puts a consistent core back into the slot.
    pub(crate) fn put(&mut self, core: C)
        requires
            core.wf(),
        ensures
            final(self).core == Some(core),
        opens_invariants none
        no_unwind
    {
        self.core = Some(core);
    }
}

} // verus!
