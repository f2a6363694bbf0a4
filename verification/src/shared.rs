//! The dictionary as the search instances of a campaign share it: behind one
//! reader-writer lock, taken for the length of a single call.
//!
//! A holder of the exclusive lock that panicked leaves the lock poisoned. The
//! dictionary is then taken over as it stands and used on: losing an update
//! is tolerable, stopping the campaign is not. What other instances do to
//! the dictionary between two calls is not known to a caller, so the calls
//! here promise only what holds whatever the others did.

use crate::cond::SCond;
use crate::dict::{is_histogram_text, records_within, Dict};
use crate::model::is_bucket_list;
use std::sync::{PoisonError, RwLock, RwLockReadGuard, RwLockWriteGuard};
use vstd::prelude::*;

verus! {

/// `std::sync::RwLock`, taken as an opaque type.
#[verifier::external_type_specification]
#[verifier::external_body]
#[verifier::reject_recursive_types(T)]
pub struct ExRwLock<T: ?Sized>(std::sync::RwLock<T>);

/// `std::sync::RwLockReadGuard`, taken as an opaque type.
#[verifier::external_type_specification]
#[verifier::external_body]
#[verifier::reject_recursive_types(T)]
pub struct ExRwLockReadGuard<'a, T: ?Sized>(std::sync::RwLockReadGuard<'a, T>);

/// `std::sync::RwLockWriteGuard`, taken as an opaque type.
#[verifier::external_type_specification]
#[verifier::external_body]
#[verifier::reject_recursive_types(T)]
pub struct ExRwLockWriteGuard<'a, T: ?Sized + 'a>(std::sync::RwLockWriteGuard<'a, T>);

/// `std::sync::PoisonError`, taken as an opaque type.
#[verifier::external_type_specification]
#[verifier::external_body]
#[verifier::reject_recursive_types(T)]
pub struct ExPoisonError<T>(std::sync::PoisonError<T>);

/// `RwLock::new`: a lock around `dict`.
#[verifier::external_body]
fn lock_new(dict: Dict) -> RwLock<Dict> {
    RwLock::new(dict)
}

/// `RwLock::read`: waits for shared access. The result is an error when an
/// earlier holder of exclusive access panicked; the error still carries the
/// guard. The call may not return while the calling thread holds the lock
/// itself, which no function of this module does when it returns.
#[verifier::external_body]
fn lock_read<'a>(lock: &'a RwLock<Dict>) -> Result<
    RwLockReadGuard<'a, Dict>,
    PoisonError<RwLockReadGuard<'a, Dict>>,
> {
    lock.read()
}

/// `RwLock::write`: waits for exclusive access. The result is an error when
/// an earlier holder of exclusive access panicked; the error still carries
/// the guard. The call may not return while the calling thread holds the
/// lock itself, which no function of this module does when it returns.
#[verifier::external_body]
fn lock_write<'a>(lock: &'a RwLock<Dict>) -> Result<
    RwLockWriteGuard<'a, Dict>,
    PoisonError<RwLockWriteGuard<'a, Dict>>,
> {
    lock.write()
}

/// `PoisonError::into_inner`: the guard that a poisoned access carries.
#[verifier::external_body]
fn recover<G>(poisoned: PoisonError<G>) -> G {
    poisoned.into_inner()
}

/// `Deref::deref` of a read guard: the dictionary behind the lock.
#[verifier::external_body]
fn guarded<'a, 'b>(guard: &'a RwLockReadGuard<'b, Dict>) -> &'a Dict {
    std::ops::Deref::deref(guard)
}

/// `DerefMut::deref_mut` of a write guard: the dictionary behind the lock,
/// to be changed in place.
#[verifier::external_body]
fn guarded_mut<'a, 'b>(guard: &'a mut RwLockWriteGuard<'b, Dict>) -> &'a mut Dict {
    std::ops::DerefMut::deref_mut(guard)
}

/// A dictionary behind a reader-writer lock.
pub struct SharedDict {
    lock: RwLock<Dict>,
}

impl SharedDict {
    /// A lock around an empty dictionary.
    pub fn new() -> SharedDict {
        SharedDict { lock: lock_new(Dict::new()) }
    }

    /// Folds records into the dictionary under the exclusive lock, as
    /// `Dict::filter` does. A poisoned lock is taken over.
    pub fn filter(&self, conds: Vec<SCond>, buf: Vec<u8>)
        requires
            records_within(conds@, buf@.len() as int),
    {
        let _ = self.filter_recovering(conds, buf);
    }

    /// Folds records into the dictionary as `filter` does, and tells
    /// whether the lock was found poisoned and had to be taken over, so
    /// that the caller can warn of it.
    ///
    /// Whether the lock is poisoned depends on what its earlier holders did;
    /// nothing holds of the answer whatever they did.
    pub fn filter_recovering(&self, conds: Vec<SCond>, buf: Vec<u8>) -> (recovered: bool)
        requires
            records_within(conds@, buf@.len() as int),
    {
        let (mut guard, recovered) = match lock_write(&self.lock) {
            Ok(guard) => (guard, false),
            Err(poisoned) => (recover(poisoned), true),
        };
        let dict = guarded_mut(&mut guard);
        dict.filter(conds, buf);
        recovered
    }

    /// The tokens of the bucket at position `idx`, read under the shared
    /// lock as `Dict::get_list` reads them. A poisoned lock is taken over.
    ///
    /// Which tokens come back depends on what the holders of the lock did
    /// before; whatever they did, the list is that of one bucket.
    pub fn get_list(&self, idx: usize) -> (list: Vec<Vec<u8>>)
        ensures
            is_bucket_list(list.deep_view()),
    {
        let guard = match lock_read(&self.lock) {
            Ok(guard) => guard,
            Err(poisoned) => recover(poisoned),
        };
        guarded(&guard).get_list(idx)
    }

    /// Whether the dictionary holds no token, read under the shared lock.
    /// A poisoned lock is taken over.
    pub fn is_empty(&self) -> bool {
        let guard = match lock_read(&self.lock) {
            Ok(guard) => guard,
            Err(poisoned) => recover(poisoned),
        };
        guarded(&guard).is_empty()
    }

    /// The histogram of token lengths as text, read under the shared lock
    /// as `Dict::get_len` reads it. A poisoned lock is taken over.
    ///
    /// The counts depend on what the holders of the lock did before; the
    /// text is that of eight counts whatever they did.
    pub fn get_len(&self) -> (text: String)
        ensures
            is_histogram_text(text@),
    {
        let guard = match lock_read(&self.lock) {
            Ok(guard) => guard,
            Err(poisoned) => recover(poisoned),
        };
        guarded(&guard).get_len()
    }
}

} // verus!
