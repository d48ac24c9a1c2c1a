//! What searches find.
use crate::util::{is_partition_point, true_from, true_until};
use vstd::prelude::*;

verus! {

/// A search finds the position where a predicate turns false.
pub proof fn lemma_turns_false<T, F: Fn(&T) -> bool>(holds: F, items: Seq<T>, at: usize, k: int)
    requires
        is_partition_point(holds, items, at),
        0 <= k <= items.len(),
        forall|i: int|
            0 <= i < k ==> !#[trigger] holds.ensures((&items[i],), false),
        forall|i: int|
            k <= i < items.len() ==> !#[trigger] holds.ensures((&items[i],), true),
    ensures
        at == k,
{
    assert(true_until(holds, items, k));
}

/// A predicate is true until a position if it can only be true in front of it, and only false from
/// it on.
pub proof fn lemma_true_until<T, F: Fn(&T) -> bool>(holds: F, items: Seq<T>, k: int)
    requires
        0 <= k <= items.len(),
    ensures
        true_until(holds, items, k) <==> (forall|i: int|
            0 <= i < k ==> !#[trigger] holds.ensures((&items[i],), false)) && (forall|i: int|
            k <= i < items.len() ==> !#[trigger] holds.ensures((&items[i],), true)),
{
}

/// A predicate is true from a position on if it can only be false in front of it, and only true
/// from it on.
pub proof fn lemma_true_from<T, F: Fn(&T) -> bool>(holds: F, items: Seq<T>, k: int)
    requires
        0 <= k <= items.len(),
    ensures
        true_from(holds, items, k) <==> (forall|i: int|
            0 <= i < k ==> !#[trigger] holds.ensures((&items[i],), true)) && (forall|i: int|
            k <= i < items.len() ==> !#[trigger] holds.ensures((&items[i],), false)),
{
}

} // verus!
