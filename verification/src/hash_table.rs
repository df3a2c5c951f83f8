//! The shared operational contract of the storage engines: a mapping from
//! 64-bit keys to 64-bit values with point set, get and remove, a logical
//! item count, and an on-disk byte-size report.
//!
//! Each engine supplies its own well-formedness invariant and its own pre-
//! and postconditions through the spec functions of the trait; the methods
//! then carry those contracts for every implementation.

use vstd::prelude::*;

verus! {

pub trait HashTable: Sized {
    /// Well-formedness that every operation preserves.
    spec fn inv(&self) -> bool;

    /// Machine-limit headroom a `set` needs (growth or flush room).
    spec fn set_pre(&self, key: u64, value: u64) -> bool;

    /// How the state after a `set` relates to the state before it.
    spec fn set_post(&self, post: &Self, key: u64, value: u64) -> bool;

    /// What a `get` returns.
    spec fn get_post(&self, key: u64, r: Option<u64>) -> bool;

    /// Machine-limit headroom a `remove` needs.
    spec fn remove_pre(&self, key: u64) -> bool;

    /// How the state after a `remove` relates to the state before it.
    spec fn remove_post(&self, post: &Self, key: u64) -> bool;

    /// What the logical item count reports.
    spec fn len_post(&self, r: usize) -> bool;

    /// Machine-limit headroom needed to report the byte footprint.
    spec fn size_pre(&self) -> bool;

    /// What the on-disk byte-size report returns.
    spec fn size_post(&self, r: usize) -> bool;

    fn set(&mut self, key: u64, value: u64)
        requires
            old(self).inv(),
            old(self).set_pre(key, value),
        ensures
            final(self).inv(),
            old(self).set_post(final(self), key, value),
    ;

    fn get(&self, key: u64) -> (r: Option<u64>)
        requires
            self.inv(),
        ensures
            self.get_post(key, r),
    ;

    fn remove(&mut self, key: u64)
        requires
            old(self).inv(),
            old(self).remove_pre(key),
        ensures
            final(self).inv(),
            old(self).remove_post(final(self), key),
    ;

    fn len(&self) -> (r: usize)
        requires
            self.inv(),
        ensures
            self.len_post(r),
    ;

    fn on_disk_size(&self) -> (r: usize)
        requires
            self.inv(),
            self.size_pre(),
        ensures
            self.size_post(r),
    ;
}

} // verus!
