//! Searching in ordered slices, and shifting ranges.
use std::ops::Range;
use vstd::prelude::*;

verus! {

/// `holds` is true of the first `k` items, and of no later one.
pub open spec fn true_until<T, F: Fn(&T) -> bool>(holds: F, items: Seq<T>, k: int) -> bool {
    &&& 0 <= k <= items.len()
    &&& forall|i: int, b: bool|
        0 <= i < items.len() && #[trigger] holds.ensures((&items[i],), b) ==> b == (i < k)
}

/// `holds` is true of item `k` and of all later ones, and of no earlier one.
pub open spec fn true_from<T, F: Fn(&T) -> bool>(holds: F, items: Seq<T>, k: int) -> bool {
    &&& 0 <= k <= items.len()
    &&& forall|i: int, b: bool|
        0 <= i < items.len() && #[trigger] holds.ensures((&items[i],), b) ==> b == (i >= k)
}

/// `holds` is `first` of the first `k` items, and not of any later one.
pub open spec fn turns_at<T, F: Fn(&T) -> bool>(
    holds: F,
    first: bool,
    items: Seq<T>,
    k: int,
) -> bool {
    if first {
        true_until(holds, items, k)
    } else {
        true_from(holds, items, k)
    }
}

/// `at` is the first item of which `holds` is false, if `holds` turns false once.
pub open spec fn is_partition_point<T, F: Fn(&T) -> bool>(
    holds: F,
    items: Seq<T>,
    at: usize,
) -> bool {
    &&& at <= items.len()
    &&& forall|k: int| #[trigger] true_until(holds, items, k) ==> at == k
}

/// Both ways of searching find the same item.
pub proof fn lemma_same_partition_point<T, F: Fn(&T) -> bool>(
    holds: F,
    items: Seq<T>,
    a: usize,
    b: usize,
    k: int,
)
    requires
        true_until(holds, items, k),
        is_partition_point(holds, items, a),
        is_partition_point(holds, items, b),
    ensures
        a == b,
{
}

/// Searches `items[low..high]` for the first item of which `holds` is not `first`.
fn partition_point_in<T, F: Fn(&T) -> bool>(
    items: &[T],
    low: usize,
    high: usize,
    holds: &F,
    first: bool,
) -> (at: usize)
    requires
        low <= high <= items@.len(),
        forall|i: int| 0 <= i < items@.len() ==> holds.requires((&#[trigger] items@[i],)),
    ensures
        low <= at <= high,
        forall|k: int|
            low <= k <= high && #[trigger] turns_at(*holds, first, items@, k) ==> at == k,
{
    let mut start: usize = low;
    let mut end: usize = high;
    while start < end
        invariant
            low <= start <= end <= high <= items@.len(),
            forall|i: int| 0 <= i < items@.len() ==> holds.requires((&#[trigger] items@[i],)),
            forall|k: int|
                low <= k <= high && #[trigger] turns_at(*holds, first, items@, k) ==> start <= k
                    <= end,
        decreases end - start,
    {
        let mid: usize = start + (end - start) / 2;
        let item = &items[mid];
        if holds(item) == first {
            start = mid + 1;
        } else {
            end = mid;
        }
    }
    start
}

/// Finds the first item of which a predicate is false that is true of the items before it and
/// false of those behind it.
pub fn partition_point<T, F: Fn(&T) -> bool>(slice: &[T], eventually_false: F) -> (at: usize)
    requires
        forall|i: int|
            0 <= i < slice@.len() ==> eventually_false.requires((&#[trigger] slice@[i],)),
    ensures
        is_partition_point(eventually_false, slice@, at),
{
    let at: usize = partition_point_in(slice, 0, slice.len(), &eventually_false, true);
    proof {
        assert forall|k: int| #[trigger]
            true_until(eventually_false, slice@, k) implies at == k by {
            assert(turns_at(eventually_false, true, slice@, k));
        }
    }
    at
}

/// Finds a range in which both predicates are true of all items.
///
/// The first predicate turns true once in the slice, the second one turns false once.
pub fn find_subrange<T, F: Fn(&T) -> bool, G: Fn(&T) -> bool>(
    slice: &[T],
    eventually_true: F,
    eventually_false: G,
) -> (range: Range<usize>)
    requires
        forall|i: int|
            0 <= i < slice@.len() ==> eventually_true.requires((&#[trigger] slice@[i],)),
        forall|i: int|
            0 <= i < slice@.len() ==> eventually_false.requires((&#[trigger] slice@[i],)),
    ensures
        range.start <= slice@.len(),
        range.end <= slice@.len(),
        forall|k: int| #[trigger] true_from(eventually_true, slice@, k) ==> range.start == k,
        forall|k: int| #[trigger] true_until(eventually_false, slice@, k) ==> range.end == k,
{
    let start: usize = partition_point_in(slice, 0, slice.len(), &eventually_true, false);
    let end: usize = partition_point_in(slice, 0, slice.len(), &eventually_false, true);
    proof {
        assert forall|k: int| #[trigger]
            true_from(eventually_true, slice@, k) implies start == k by {
            assert(turns_at(eventually_true, false, slice@, k));
        }
        assert forall|k: int| #[trigger]
            true_until(eventually_false, slice@, k) implies end == k by {
            assert(turns_at(eventually_false, true, slice@, k));
        }
    }
    start..end
}

/// Both predicates are true of all items of the subrange.
pub proof fn lemma_subrange<T, F: Fn(&T) -> bool, G: Fn(&T) -> bool>(
    eventually_true: F,
    eventually_false: G,
    items: Seq<T>,
    start: int,
    end: int,
    i: int,
    f: bool,
    g: bool,
)
    requires
        true_from(eventually_true, items, start),
        true_until(eventually_false, items, end),
        start <= i < end,
        eventually_true.ensures((&items[i],), f),
        eventually_false.ensures((&items[i],), g),
    ensures
        f,
        g,
{
}

/// Finds the first item of which a predicate is false that is true of the items before it and
/// false of those behind it, with steps that double in size.
///
/// This always finds the same item as [`partition_point`].
pub fn exponential_partition_point<T, F: Fn(&T) -> bool>(slice: &[T], eventually_false: F) -> (at:
    usize)
    requires
        forall|i: int|
            0 <= i < slice@.len() ==> eventually_false.requires((&#[trigger] slice@[i],)),
    ensures
        is_partition_point(eventually_false, slice@, at),
{
    // The part of the slice that still needs to be searched starts at `skipped` and ends at `end`.
    let mut skipped: usize = 0;
    let mut end: usize = slice.len();
    let mut test_idx: usize = 0;
    let mut step: usize = 1;
    while test_idx < end - skipped
        invariant_except_break
            step >= 1,
            end == slice@.len(),
            skipped > 0 ==> test_idx >= 1,
        invariant
            skipped <= end <= slice@.len(),
            forall|i: int|
                0 <= i < slice@.len() ==> eventually_false.requires((&#[trigger] slice@[i],)),
            forall|k: int| #[trigger]
                true_until(eventually_false, slice@, k) ==> skipped <= k <= end,
        decreases
                end - skipped,
                (if test_idx == 0 {
                    1int
                } else {
                    0int
                }),
    {
        let tested: usize = skipped + test_idx;
        let item = &slice[tested];
        if eventually_false(item) {
            proof {
                assert forall|k: int| #[trigger]
                    true_until(eventually_false, slice@, k) implies tested <= k <= end by {}
            }
            skipped = tested;
            test_idx = step;
            step = if step <= usize::MAX / 2 {
                step * 2
            } else {
                usize::MAX
            };
        } else {
            proof {
                assert forall|k: int| #[trigger]
                    true_until(eventually_false, slice@, k) implies skipped <= k <= tested by {}
            }
            end = tested;
            break;
        }
    }
    let at: usize = partition_point_in(slice, skipped, end, &eventually_false, true);
    proof {
        assert forall|k: int| #[trigger]
            true_until(eventually_false, slice@, k) implies at == k by {
            assert(turns_at(eventually_false, true, slice@, k));
        }
    }
    at
}

/// Moves a range by an offset. A range whose end is before its start becomes empty.
pub fn shift_range(range: Range<usize>, offset: usize) -> (shifted: Range<usize>)
    requires
        range.end + offset <= usize::MAX,
    ensures
        shifted.start == (if range.start <= range.end {
            range.start
        } else {
            range.end
        }) + offset,
        shifted.end == range.end + offset,
{
    let start: usize = if range.start <= range.end {
        range.start
    } else {
        range.end
    };
    start + offset..range.end + offset
}

} // verus!
