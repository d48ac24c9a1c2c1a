//! Sorting by a key.
use vstd::prelude::*;

verus! {

/// A value that has a place in an order.
pub trait SortKey: Sized {
    /// The place of this value.
    spec fn spec_sort_key(self) -> usize;

    /// The place of this value.
    fn sort_key(&self) -> (key: usize)
        ensures
            key == self.spec_sort_key(),
    ;
}

/// The values with a key, in the order in which they come.
pub open spec fn with_key<T: SortKey>(items: Seq<T>, key: usize) -> Seq<T> {
    items.filter(|item: T| item.spec_sort_key() == key)
}

/// The values are in the order of their keys.
pub open spec fn in_key_order<T: SortKey>(items: Seq<T>) -> bool {
    forall|i: int, j: int|
        0 <= i < j < items.len() ==> (#[trigger] items[i]).spec_sort_key() <= (
        #[trigger] items[j]).spec_sort_key()
}

/// `after` holds the values of `before` in the order of their keys, and those with the same key in
/// the order in which they came.
pub open spec fn sorts<T: SortKey>(before: Seq<T>, after: Seq<T>) -> bool {
    &&& in_key_order(after)
    &&& forall|key: usize| #[trigger] with_key(after, key) == with_key(before, key)
}

/// Sorts with the standard library's `sort_by_key`.
///
/// The values end up in the order of their keys, and those with the same key stay in the order in
/// which they came.
#[verifier::external_body]
pub(crate) fn sort_by_key<T: SortKey>(items: &mut Vec<T>)
    ensures
        sorts(old(items)@, final(items)@),
{
    items.sort_by_key(|item| item.sort_key());
}

/// A value is among those with its key if and only if it is among all.
proof fn lemma_with_key<T: SortKey>(items: Seq<T>, item: T)
    ensures
        with_key(items, item.spec_sort_key()).contains(item) <==> items.contains(item),
    decreases items.len(),
{
    reveal(Seq::filter);
    let key = item.spec_sort_key();
    if items.len() > 0 {
        let rest = items.drop_last();
        let last = items.last();
        lemma_with_key(rest, item);
        let found = with_key(rest, key);
        assert(items.contains(item) <==> rest.contains(item) || item == last) by {
            if rest.contains(item) {
                let i = choose|i: int| 0 <= i < rest.len() && rest[i] == item;
                assert(items[i] == item);
            }
            if items.contains(item) && item != last {
                let i = choose|i: int| 0 <= i < items.len() && items[i] == item;
                assert(rest[i] == item);
            }
            if item == last {
                assert(items[items.len() - 1] == item);
            }
        }
        if last.spec_sort_key() == key {
            let more = found.push(last);
            assert(with_key(items, key) == more);
            assert(more.contains(item) <==> found.contains(item) || item == last) by {
                if found.contains(item) {
                    let i = choose|i: int| 0 <= i < found.len() && found[i] == item;
                    assert(more[i] == item);
                }
                if item == last {
                    assert(more[found.len() as int] == item);
                }
            }
        } else {
            assert(with_key(items, key) == found);
        }
    } else {
        assert(with_key(items, key) =~= Seq::empty());
    }
}

/// Sorting neither adds nor loses values.
pub proof fn lemma_sorts_same<T: SortKey>(before: Seq<T>, after: Seq<T>, item: T)
    requires
        sorts(before, after),
    ensures
        after.contains(item) <==> before.contains(item),
{
    lemma_with_key(before, item);
    lemma_with_key(after, item);
    assert(with_key(after, item.spec_sort_key()) == with_key(before, item.spec_sort_key()));
}

} // verus!
