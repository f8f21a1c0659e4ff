//! A set of block indices that hashes with the Fx hash function.

use std::hash::BuildHasherDefault;

use fxhash::{FxHashSet, FxHasher};
use vstd::prelude::*;

verus! {

/// `fxhash::FxHasher`, which `fxhash::FxHashSet` hashes its items with.
#[verifier::external_type_specification]
#[verifier::external_body]
pub struct ExFxHasher(FxHasher);

/// `std::hash::BuildHasherDefault`, by which `fxhash::FxHashSet` makes its hashers.
#[verifier::external_type_specification]
#[verifier::external_body]
#[verifier::reject_recursive_types(H)]
pub struct ExBuildHasherDefault<H>(BuildHasherDefault<H>);

/// `HashSet::insert` on an `fxhash::FxHashSet`: afterwards the set holds `item`
/// besides what it held, and the result says whether `item` is new.
#[verifier::external_body]
pub(crate) fn insert(set: &mut FxHashSet<usize>, item: usize) -> (fresh: bool)
    ensures
        final(set)@ == old(set)@.insert(item),
        fresh == !old(set)@.contains(item),
{
    set.insert(item)
}

/// The first item of `HashSet::iter` on an `fxhash::FxHashSet`: one of its
/// items, or `None` if it has none. Which of several comes first is left open.
#[verifier::external_body]
pub(crate) fn first(set: &FxHashSet<usize>) -> (item: Option<usize>)
    ensures
        match item {
            Some(i) => set@.contains(i),
            None => set@ == Set::<usize>::empty(),
        },
{
    set.iter().next().copied()
}

} // verus!
