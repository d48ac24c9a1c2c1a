//! Searching in ordered slices, and shifting ranges.
use wasm_split::util::{exponential_partition_point, find_subrange, partition_point, shift_range};

#[test]
fn test_exponential_partition() {
    fn test_property<T>(slice: &[T], eventually_false: impl Fn(&T) -> bool) {
        // for all slices and all monotone functions, we should have
        assert_eq!(
            slice.partition_point(&eventually_false),
            exponential_partition_point(slice, &eventually_false)
        );
    }
    let v = [1, 2, 3, 3, 5, 6, 7];
    let is_small = |&x: &_| x < 5;
    test_property(&v, is_small);

    let a = [2, 4, 8];
    let is_small = |&x: &_| x < 100;
    test_property(&a, is_small);

    let a: [i32; 0] = [];
    test_property(&a, is_small);

    let s = vec![0, 1, 1, 1, 1, 2, 3, 5, 8, 13, 21, 34, 55];
    let num = 42;
    test_property(&s, |&x| x <= num);
}

#[test]
fn partition_points_agree_everywhere() {
    for len in 0..40usize {
        let items: Vec<usize> = (0..len).collect();
        for limit in 0..=len {
            assert_eq!(exponential_partition_point(&items, |&x| x < limit), limit);
            assert_eq!(partition_point(&items, |&x| x < limit), limit);
        }
    }
}

#[test]
fn subranges_satisfy_both_predicates() {
    let items = [1, 2, 3, 4, 5, 6];
    assert_eq!(find_subrange(&items, |&x| x >= 2, |&x| x < 5), 1..4);
    assert_eq!(find_subrange(&items, |&x| x >= 9, |&x| x < 5), 6..4);
    assert_eq!(find_subrange(&items, |_| true, |_| true), 0..6);
    let none: [u8; 0] = [];
    assert_eq!(find_subrange(&none, |_| true, |_| true), 0..0);
}

#[test]
fn ranges_are_shifted() {
    assert_eq!(shift_range(3..7, 10), 13..17);
    assert_eq!(shift_range(0..0, usize::MAX), usize::MAX..usize::MAX);
    let backwards = std::ops::Range { start: 9, end: 4 };
    assert_eq!(shift_range(backwards, 10), 14..14);
}
