use frank_wolfe::iter::merge_sorted::{merge_sorted, MergedIterator};

#[test]
fn merge_interleaves_sorted_inputs() {
    let left = vec![1, 4, 6];
    let right = vec![2, 3, 7, 8];
    assert_eq!(merge_sorted(&left, &right).into_vec(), vec![1, 2, 3, 4, 6, 7, 8]);
}

#[test]
fn merge_prefers_left_on_ties() {
    let left = vec![(1, 'l')];
    let right = vec![(1, 'r')];
    // Tuples compare by both fields; equal keys with 'l' < 'r' keep the left first.
    assert_eq!(merge_sorted(&left, &right).into_vec(), vec![(1, 'l'), (1, 'r')]);
    let left = vec![2, 2];
    let right = vec![2];
    assert_eq!(merge_sorted(&left, &right).into_vec(), vec![2, 2, 2]);
}

#[test]
fn merge_with_empty_sides() {
    let empty: Vec<u64> = vec![];
    let some = vec![5u64, 9];
    assert_eq!(merge_sorted(&empty, &some).into_vec(), vec![5, 9]);
    assert_eq!(merge_sorted(&some, &empty).into_vec(), vec![5, 9]);
    assert_eq!(merge_sorted(&empty, &empty).into_vec(), Vec::<u64>::new());
}

#[test]
fn merge_next_step_by_step() {
    let left = vec!["b", "d"];
    let right = vec!["a", "c"];
    let mut it = MergedIterator::new(&left, &right);
    assert_eq!(it.next(), Some("a"));
    assert_eq!(it.next(), Some("b"));
    assert_eq!(it.next(), Some("c"));
    assert_eq!(it.next(), Some("d"));
    assert_eq!(it.next(), None);
}

#[test]
fn merge_of_sorted_is_sorted_with_every_item() {
    let left = vec![1, 3, 5];
    let right = vec![2, 3, 4];
    let merged = merge_sorted(&left, &right).into_vec();
    assert_eq!(merged, vec![1, 2, 3, 3, 4, 5]);
    let empty: Vec<i32> = vec![];
    let unsorted = vec![3, 1, 2];
    assert_eq!(merge_sorted(&unsorted, &empty).into_vec(), unsorted);
    assert_eq!(merge_sorted(&empty, &unsorted).into_vec(), unsorted);
}
