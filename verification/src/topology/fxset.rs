use vstd::prelude::*;
use rustc_hash::{FxBuildHasher, FxHashSet};

verus! {

/// The hasher builder of `rustc_hash`, carried opaquely.
#[verifier::external_type_specification]
#[verifier::external_body]
pub struct ExFxBuildHasher(FxBuildHasher);

/// What an `FxHashSet<u64>` holds.
pub uninterp spec fn key_set(s: FxHashSet<u64>) -> Set<u64>;

/// What an `FxHashSet<u32>` holds.
pub uninterp spec fn id_set(s: FxHashSet<u32>) -> Set<u32>;

/// `FxHashSet::<u64>::default()` (std's `Default` for a `HashSet` over
/// `rustc_hash::FxBuildHasher`): claimed to hold nothing.
#[verifier::external_body]
pub(crate) fn key_set_new() -> (s: FxHashSet<u64>)
    ensures
        key_set(s) == Set::<u64>::empty(),
{
    FxHashSet::default()
}

/// `HashSet::insert` on an `FxHashSet<u64>`: claimed to add `k` and to
/// return whether it was absent before.
#[verifier::external_body]
pub(crate) fn key_set_insert(s: &mut FxHashSet<u64>, k: u64) -> (fresh: bool)
    ensures
        key_set(*final(s)) == key_set(*old(s)).insert(k),
        fresh == !key_set(*old(s)).contains(k),
{
    s.insert(k)
}

/// `HashSet::remove` on an `FxHashSet<u64>`: claimed to drop `k` and to
/// return whether it was present before.
#[verifier::external_body]
pub(crate) fn key_set_remove(s: &mut FxHashSet<u64>, k: u64) -> (was: bool)
    ensures
        key_set(*final(s)) == key_set(*old(s)).remove(k),
        was == key_set(*old(s)).contains(k),
{
    s.remove(&k)
}

/// `HashSet::contains` on an `FxHashSet<u64>`.
#[verifier::external_body]
pub(crate) fn key_set_contains(s: &FxHashSet<u64>, k: u64) -> (r: bool)
    ensures
        r == key_set(*s).contains(k),
{
    s.contains(&k)
}

/// `HashSet::len` on an `FxHashSet<u64>`: claimed to be the number of keys.
#[verifier::external_body]
pub(crate) fn key_set_len(s: &FxHashSet<u64>) -> (n: usize)
    ensures
        n == key_set(*s).len(),
{
    s.len()
}

/// `HashSet::iter` on an `FxHashSet<u64>`, its items copied into a `Vec` in
/// the order the set walks them. Claimed: every key once, nothing else. The
/// order is left unsaid: it is the table's own.
#[verifier::external_body]
pub(crate) fn key_set_items(s: &FxHashSet<u64>) -> (v: Vec<u64>)
    ensures
        v@.to_set() == key_set(*s),
        v@.no_duplicates(),
{
    s.iter().copied().collect()
}

/// `FxHashSet::<u32>::default()`: claimed to hold nothing.
#[verifier::external_body]
pub(crate) fn id_set_new() -> (s: FxHashSet<u32>)
    ensures
        id_set(s) == Set::<u32>::empty(),
{
    FxHashSet::default()
}

/// `HashSet::insert` on an `FxHashSet<u32>`: claimed to add `k`.
#[verifier::external_body]
pub(crate) fn id_set_insert(s: &mut FxHashSet<u32>, k: u32)
    ensures
        id_set(*final(s)) == id_set(*old(s)).insert(k),
{
    s.insert(k);
}

/// `HashSet::remove` on an `FxHashSet<u32>`: claimed to drop `k`.
#[verifier::external_body]
pub(crate) fn id_set_remove(s: &mut FxHashSet<u32>, k: u32)
    ensures
        id_set(*final(s)) == id_set(*old(s)).remove(k),
{
    s.remove(&k);
}

} // verus!
