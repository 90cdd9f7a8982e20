//! The slabs that hold in-flight operations and received completions.
//!
//! Both are `slab::Slab`s. Verus sees nothing inside such a value, so each kind of slab gets
//! a name for its entries, and every method in use gets a wrapper whose contract speaks of
//! that name. Nothing here is proved: the contracts restate what the `slab` crate does.

use slab::Slab;
use vstd::prelude::*;

use crate::driver::completion::Completion;
use crate::driver::op::Lifecycle;

verus! {

/// The slab of the `slab` crate, opaque to the verifier.
#[verifier::external_type_specification]
#[verifier::external_body]
#[verifier::reject_recursive_types(T)]
pub struct ExSlab<T>(slab::Slab<T>);

/// The occupied entries of a slab of operations, by key.
pub uninterp spec fn lifecycle_entries(slab: &Slab<Lifecycle>) -> Map<usize, Lifecycle>;

/// Calls `Slab::with_capacity`: the new slab has no entries, whatever room it sets aside.
#[verifier::external_body]
pub(crate) fn new_lifecycles(capacity: usize) -> (slab: Slab<Lifecycle>)
    ensures
        lifecycle_entries(&slab).dom() == Set::<usize>::empty(),
{
    Slab::with_capacity(capacity)
}

/// Calls `Slab::len`: the number of occupied entries.
#[verifier::external_body]
pub(crate) fn lifecycle_count(slab: &Slab<Lifecycle>) -> (count: usize)
    ensures
        count == lifecycle_entries(slab).dom().len(),
{
    slab.len()
}

/// Calls `Slab::is_empty`: whether no entry is occupied.
#[verifier::external_body]
pub(crate) fn no_lifecycles(slab: &Slab<Lifecycle>) -> (empty: bool)
    ensures
        empty == (lifecycle_entries(slab).dom() == Set::<usize>::empty()),
{
    slab.is_empty()
}

/// Calls `Slab::insert`: the value is stored under a key that was free, and no other entry
/// changes. The key indexes the vector that the slab keeps its entries in, so it is smaller
/// than that vector's length and with it than `usize::MAX`.
#[verifier::external_body]
pub(crate) fn insert_lifecycle(slab: &mut Slab<Lifecycle>, value: Lifecycle) -> (key: usize)
    ensures
        key < usize::MAX,
        !lifecycle_entries(&*old(slab)).contains_key(key),
        lifecycle_entries(&*final(slab)) == lifecycle_entries(&*old(slab)).insert(key, value),
{
    slab.insert(value)
}

/// Calls `Slab::remove`: takes the entry under `key` out and returns it. The call panics on
/// a key that is not occupied, which `requires` rules out.
#[verifier::external_body]
pub(crate) fn remove_lifecycle(slab: &mut Slab<Lifecycle>, key: usize) -> (value: Lifecycle)
    requires
        lifecycle_entries(&*old(slab)).contains_key(key),
    ensures
        value == lifecycle_entries(&*old(slab))[key],
        lifecycle_entries(&*final(slab)) == lifecycle_entries(&*old(slab)).remove(key),
{
    slab.remove(key)
}

/// Calls `Slab::get`: the entry under `key`, or `None` where the key is not occupied.
#[verifier::external_body]
pub(crate) fn lifecycle_at(slab: &Slab<Lifecycle>, key: usize) -> (entry: Option<&Lifecycle>)
    ensures
        match entry {
            Some(e) => lifecycle_entries(slab).contains_key(key) && *e == lifecycle_entries(slab)[key],
            None => !lifecycle_entries(slab).contains_key(key),
        },
{
    slab.get(key)
}

/// Calls `Slab::get_mut`: a mutable reference to the entry under `key`, or `None` where the
/// key is not occupied. What is written through the reference becomes that entry; no other
/// entry changes.
#[verifier::external_body]
pub(crate) fn lifecycle_at_mut(slab: &mut Slab<Lifecycle>, key: usize) -> (entry: Option<
    &mut Lifecycle,
>)
    ensures
        match entry {
            Some(e) => {
                &&& lifecycle_entries(&*old(slab)).contains_key(key)
                &&& *e == lifecycle_entries(&*old(slab))[key]
                &&& lifecycle_entries(&*final(slab)) == lifecycle_entries(&*old(slab)).insert(
                    key,
                    *final(e),
                )
            },
            None => {
                &&& !lifecycle_entries(&*old(slab)).contains_key(key)
                &&& *final(slab) == *old(slab)
            },
        },
{
    slab.get_mut(key)
}

/// Calls `Slab::iter` and keeps the key of each entry: the keys of the occupied entries,
/// each once, in ascending order.
#[verifier::external_body]
pub(crate) fn lifecycle_keys(slab: &Slab<Lifecycle>) -> (keys: Vec<usize>)
    ensures
        forall|i: int, j: int| 0 <= i < j < keys@.len() ==> keys@[i] < keys@[j],
        forall|key: usize| #[trigger]
            keys@.contains(key) <==> lifecycle_entries(slab).contains_key(key),
{
    slab.iter().map(|(key, _)| key).collect()
}

/// The occupied entries of a slab of completions, by key.
pub uninterp spec fn completion_entries(slab: &Slab<Completion>) -> Map<usize, Completion>;

/// Calls `Slab::with_capacity`: the new slab has no entries, whatever room it sets aside.
#[verifier::external_body]
pub(crate) fn new_completions(capacity: usize) -> (slab: Slab<Completion>)
    ensures
        completion_entries(&slab).dom() == Set::<usize>::empty(),
{
    Slab::with_capacity(capacity)
}

/// Calls `Slab::insert`: the value is stored under a key that was free, and no other entry
/// changes.
#[verifier::external_body]
pub(crate) fn insert_completion(slab: &mut Slab<Completion>, value: Completion) -> (key: usize)
    ensures
        !completion_entries(&*old(slab)).contains_key(key),
        completion_entries(&*final(slab)) == completion_entries(&*old(slab)).insert(key, value),
{
    slab.insert(value)
}

/// Calls `Slab::remove`: takes the entry under `key` out and returns it. The call panics on
/// a key that is not occupied, which `requires` rules out.
#[verifier::external_body]
pub(crate) fn remove_completion(slab: &mut Slab<Completion>, key: usize) -> (value: Completion)
    requires
        completion_entries(&*old(slab)).contains_key(key),
    ensures
        value == completion_entries(&*old(slab))[key],
        completion_entries(&*final(slab)) == completion_entries(&*old(slab)).remove(key),
{
    slab.remove(key)
}

/// Calls `Slab::get`: the entry under `key`, or `None` where the key is not occupied.
#[verifier::external_body]
pub(crate) fn completion_at(slab: &Slab<Completion>, key: usize) -> (entry: Option<&Completion>)
    ensures
        match entry {
            Some(e) => completion_entries(slab).contains_key(key) && *e == completion_entries(slab)[key],
            None => !completion_entries(slab).contains_key(key),
        },
{
    slab.get(key)
}

/// Calls `Slab::get_mut`: a mutable reference to the entry under `key`, or `None` where the
/// key is not occupied. What is written through the reference becomes that entry; no other
/// entry changes.
#[verifier::external_body]
pub(crate) fn completion_at_mut(slab: &mut Slab<Completion>, key: usize) -> (entry: Option<
    &mut Completion,
>)
    ensures
        match entry {
            Some(e) => {
                &&& completion_entries(&*old(slab)).contains_key(key)
                &&& *e == completion_entries(&*old(slab))[key]
                &&& completion_entries(&*final(slab)) == completion_entries(&*old(slab)).insert(
                    key,
                    *final(e),
                )
            },
            None => {
                &&& !completion_entries(&*old(slab)).contains_key(key)
                &&& *final(slab) == *old(slab)
            },
        },
{
    slab.get_mut(key)
}

} // verus!
