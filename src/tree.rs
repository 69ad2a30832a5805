//! The ordered maps of the cache are `rbtree::RBTree`s. This module declares
//! the type to Verus, names what a tree holds, and wraps each method that the
//! library calls.

use vstd::prelude::*;

use rbtree::RBTree;

use crate::ladder::PriceLadder;

verus! {

#[verifier::external_type_specification]
#[verifier::external_body]
#[verifier::reject_recursive_types(K)]
#[verifier::reject_recursive_types(V)]
pub struct ExRBTree<K: Ord, V>(RBTree<K, V>);

/// What a tree of price levels holds: price to resting quantity.
pub uninterp spec fn levels_of(t: RBTree<i64, u64>) -> Map<i64, u64>;

/// What a tree of snapshots holds: timestamp to the levels of its ladder.
pub uninterp spec fn snapshots_of(t: RBTree<i64, PriceLadder>) -> Map<i64, Map<i64, u64>>;

/// Relies on `RBTree::new`: the new tree is empty.
#[verifier::external_body]
pub(crate) fn levels_new() -> (r: RBTree<i64, u64>)
    ensures
        levels_of(r).dom() == Set::<i64>::empty(),
{
    RBTree::new()
}

/// Relies on `RBTree::replace_or_insert`: the key ends up mapped to the
/// value, whether it was there before or not; other keys are kept.
#[verifier::external_body]
pub(crate) fn levels_upsert(t: &mut RBTree<i64, u64>, k: i64, v: u64)
    ensures
        levels_of(*final(t)) == levels_of(*old(t)).insert(k, v),
{
    let _ = t.replace_or_insert(k, v);
}

/// Relies on `RBTree::clone`, which copies every node. It dereferences the
/// root without a check, so the tree must not be empty.
#[verifier::external_body]
pub(crate) fn levels_clone(t: &RBTree<i64, u64>) -> (r: RBTree<i64, u64>)
    requires
        levels_of(*t).dom() != Set::<i64>::empty(),
    ensures
        levels_of(r) == levels_of(*t),
{
    t.clone()
}

/// Relies on `RBTree::iter`, which walks the tree in ascending key order and
/// yields each entry once.
#[verifier::external_body]
pub(crate) fn levels_entries(t: &RBTree<i64, u64>) -> (r: Vec<(i64, u64)>)
    ensures
        levels_of(*t).dom() == r@.map_values(|e: (i64, u64)| e.0).to_set(),
        forall|j: int| 0 < j < r@.len() ==> #[trigger] r@[j].0 > r@[j - 1].0,
        forall|i: int|
            0 <= i < r@.len() ==> #[trigger] levels_of(*t)[r@[i].0] == r@[i].1,
{
    t.iter().map(|(k, v)| (*k, *v)).collect()
}

/// Relies on `RBTree::get_first`: the entry with the smallest key, if any.
#[verifier::external_body]
pub(crate) fn levels_first(t: &RBTree<i64, u64>) -> (r: Option<(i64, u64)>)
    ensures
        r is None <==> levels_of(*t).dom() == Set::<i64>::empty(),
        r matches Some((k, v)) ==> levels_of(*t).contains_key(k) && levels_of(*t)[k] == v
            && forall|j: i64| #[trigger] levels_of(*t).contains_key(j) ==> k <= j,
{
    t.get_first().map(|(k, v)| (*k, *v))
}

/// Relies on `RBTree::get_last`: the entry with the largest key, if any.
#[verifier::external_body]
pub(crate) fn levels_last(t: &RBTree<i64, u64>) -> (r: Option<(i64, u64)>)
    ensures
        r is None <==> levels_of(*t).dom() == Set::<i64>::empty(),
        r matches Some((k, v)) ==> levels_of(*t).contains_key(k) && levels_of(*t)[k] == v
            && forall|j: i64| #[trigger] levels_of(*t).contains_key(j) ==> j <= k,
{
    t.get_last().map(|(k, v)| (*k, *v))
}

/// Relies on `RBTree::new`: the new tree is empty.
#[verifier::external_body]
pub(crate) fn snapshots_new() -> (r: RBTree<i64, PriceLadder>)
    ensures
        snapshots_of(r).dom() == Set::<i64>::empty(),
{
    RBTree::new()
}

/// Relies on `RBTree::replace_or_insert`: the timestamp ends up mapped to the
/// ladder, replacing what was there; other timestamps are kept.
#[verifier::external_body]
pub(crate) fn snapshots_upsert(t: &mut RBTree<i64, PriceLadder>, k: i64, v: PriceLadder)
    ensures
        snapshots_of(*final(t)) == snapshots_of(*old(t)).insert(k, v@),
{
    let _ = t.replace_or_insert(k, v);
}

/// Relies on `RBTree::get`: the ladder stored under the timestamp, if any.
#[verifier::external_body]
pub(crate) fn snapshots_get(t: &RBTree<i64, PriceLadder>, k: i64) -> (r: Option<&PriceLadder>)
    ensures
        r is Some <==> snapshots_of(*t).contains_key(k),
        r matches Some(l) ==> l@ == snapshots_of(*t)[k],
{
    t.get(&k)
}

/// Relies on `RBTree::keys`, which yields every key once, in ascending order.
#[verifier::external_body]
pub(crate) fn snapshots_keys(t: &RBTree<i64, PriceLadder>) -> (r: Vec<i64>)
    ensures
        snapshots_of(*t).dom() == r@.to_set(),
        forall|j: int| 0 < j < r@.len() ==> #[trigger] r@[j] > r@[j - 1],
{
    t.keys().map(|k| *k).collect()
}

/// Relies on `RBTree::get_first`: the smallest timestamp, if any.
#[verifier::external_body]
pub(crate) fn snapshots_first_key(t: &RBTree<i64, PriceLadder>) -> (r: Option<i64>)
    ensures
        r is None <==> snapshots_of(*t).dom() == Set::<i64>::empty(),
        r matches Some(k) ==> snapshots_of(*t).contains_key(k)
            && forall|j: i64| #[trigger] snapshots_of(*t).contains_key(j) ==> k <= j,
{
    t.get_first().map(|(k, _)| *k)
}

/// Relies on `RBTree::get_last`: the largest timestamp, if any.
#[verifier::external_body]
pub(crate) fn snapshots_last_key(t: &RBTree<i64, PriceLadder>) -> (r: Option<i64>)
    ensures
        r is None <==> snapshots_of(*t).dom() == Set::<i64>::empty(),
        r matches Some(k) ==> snapshots_of(*t).contains_key(k)
            && forall|j: i64| #[trigger] snapshots_of(*t).contains_key(j) ==> j <= k,
{
    t.get_last().map(|(k, _)| *k)
}

/// Relies on `RBTree::pop_first`: removes and hands back the entry with the
/// smallest timestamp, if any.
#[verifier::external_body]
pub(crate) fn snapshots_pop_first(t: &mut RBTree<i64, PriceLadder>) -> (r: Option<(i64, PriceLadder)>)
    ensures
        r is None <==> snapshots_of(*old(t)).dom() == Set::<i64>::empty(),
        r is None ==> snapshots_of(*final(t)) == snapshots_of(*old(t)),
        r matches Some((k, l)) ==> snapshots_of(*old(t)).contains_key(k)
            && l@ == snapshots_of(*old(t))[k]
            && snapshots_of(*final(t)) == snapshots_of(*old(t)).remove(k)
            && forall|j: i64| #[trigger] snapshots_of(*old(t)).contains_key(j) ==> k <= j,
{
    t.pop_first()
}

} // verus!
