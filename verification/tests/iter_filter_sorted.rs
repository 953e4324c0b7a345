use frank_wolfe::iter::text_items::{compare_texts, sorted_filter_texts};
use frank_wolfe::order::Rank;
use frank_wolfe::iter::filter_sorted::SortedFilter;

fn filter_all<T: Ord + Copy>(left: &[T], right: &[T]) -> Vec<T> {
    left.sorted_filter(right).into_vec()
}

#[test]
fn test_empty_left() {
    let left: Vec<i32> = vec![];
    let right = vec![1, 2, 3];
    let result: Vec<_> = filter_all(&left, &right);
    assert_eq!(result, vec![]);
}

#[test]
fn test_empty_right() {
    let left = vec![1, 2, 3];
    let right: Vec<i32> = vec![];
    let result: Vec<_> = filter_all(&left, &right);
    assert_eq!(result, vec![1, 2, 3]);
}

#[test]
fn test_no_overlap() {
    let left = vec![1, 3, 5, 7];
    let right = vec![2, 4, 6, 8];
    let result: Vec<_> = filter_all(&left, &right);
    assert_eq!(result, vec![1, 3, 5, 7]);
}

#[test]
fn test_all_overlap() {
    let left = vec![1, 2, 3];
    let right = vec![1, 2, 3, 4, 5];
    let result: Vec<_> = filter_all(&left, &right);
    assert_eq!(result, vec![]);
}

#[test]
fn test_partial_overlap() {
    let left = vec![1, 2, 3, 4, 5, 6];
    let right = vec![2, 4, 6, 8];
    let result: Vec<_> = filter_all(&left, &right);
    assert_eq!(result, vec![1, 3, 5]);
}

#[test]
fn test_left_duplicates_filtered() {
    let left = vec![1, 1, 2, 2, 3, 3];
    let right = vec![2];
    let result: Vec<_> = filter_all(&left, &right);
    assert_eq!(result, vec![1, 1, 3, 3]);
}

#[test]
fn test_right_duplicates() {
    let left = vec![1, 2, 3, 4, 5];
    let right = vec![2, 2, 2, 4, 4];
    let result: Vec<_> = filter_all(&left, &right);
    assert_eq!(result, vec![1, 3, 5]);
}

#[test]
fn filter_sorted_test_with_strings() {
    let left = vec!["a", "b", "c", "d"];
    let right = vec!["b", "d"];
    let result: Vec<_> = sorted_filter_texts(&left, &right);
    assert_eq!(result, vec!["a", "c"]);
}

#[test]
fn sorted_filter_iterator_on_strings() {
    let left = vec!["a", "b", "c", "d"];
    let right = vec!["b", "d"];
    let result: Vec<_> = filter_all(&left, &right);
    assert_eq!(result, vec!["a", "c"]);
}

#[test]
fn filter_next_yields_one_at_a_time() {
    let left = vec![1u64, 4, 9];
    let right = vec![4u64];
    let mut it = left.as_slice().sorted_filter(&right);
    assert_eq!(it.next(), Some(1));
    assert_eq!(it.next(), Some(9));
    assert_eq!(it.next(), None);
}

#[test]
fn sorted_filter_keeps_items_missing_on_the_right() {
    let left = vec![1, 2, 2, 3, 5, 5, 8];
    let right = vec![2, 4, 5, 9];
    let expected: Vec<i32> = left.iter().copied().filter(|x| !right.contains(x)).collect();
    assert_eq!(filter_all(&left, &right), expected);
    assert_eq!(filter_all(&left, &[]), left);
    assert_eq!(filter_all(&left, &left), Vec::<i32>::new());
}

#[test]
fn sorted_filter_texts_drops_strings_on_the_right() {
    let left = vec!["a", "b", "c", "d"];
    let right = vec!["b", "d"];
    assert_eq!(sorted_filter_texts(&left, &right), vec!["a", "c"]);
    let left = vec!["ab", "ab", "abc", "b", "z"];
    let right = vec!["a", "abc", "y"];
    assert_eq!(sorted_filter_texts(&left, &right), vec!["ab", "ab", "b", "z"]);
    assert_eq!(sorted_filter_texts(&left, &[]), left);
    assert_eq!(compare_texts("ab", "abc"), Rank::Less);
    assert_eq!(compare_texts("b", "abc"), Rank::Greater);
    assert_eq!(compare_texts("é", "z"), Rank::Greater);
    assert_eq!(compare_texts("xy", "xy"), Rank::Equal);
}

#[test]
fn sorted_filter_texts_keeps_strings_missing_on_the_right() {
    let left = vec!["apple", "apple", "kiwi", "pear", "plum"];
    let right = vec!["banana", "kiwi", "plum"];
    let kept: Vec<&str> = left.iter().copied().filter(|x| !right.contains(x)).collect();
    assert_eq!(sorted_filter_texts(&left, &right), kept);
    assert_eq!(kept, vec!["apple", "apple", "pear"]);
}
