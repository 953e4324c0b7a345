use frank_wolfe::iter::text_items::{dedup_texts, same_text};
use frank_wolfe::iter::dedup::Dedup;

fn dedup_all<T: PartialEq + Copy>(items: &[T]) -> Vec<T> {
    items.dedup().into_vec()
}

#[test]
fn test_basic_dedup() {
    let vec = vec![1, 1, 2, 2, 2, 3, 3, 1];
    let result: Vec<_> = dedup_all(&vec);
    assert_eq!(result, vec![1, 2, 3, 1]);
}

#[test]
fn test_empty_iterator() {
    let vec: Vec<i32> = vec![];
    let result: Vec<_> = dedup_all(&vec);
    assert_eq!(result, vec![]);
}

#[test]
fn test_no_duplicates() {
    let vec = vec![1, 2, 3, 4, 5];
    let result: Vec<_> = dedup_all(&vec);
    assert_eq!(result, vec![1, 2, 3, 4, 5]);
}

#[test]
fn test_all_same() {
    let vec = vec![42, 42, 42, 42];
    let result: Vec<_> = dedup_all(&vec);
    assert_eq!(result, vec![42]);
}

#[test]
fn test_single_element() {
    let vec = vec![7];
    let result: Vec<_> = dedup_all(&vec);
    assert_eq!(result, vec![7]);
}

#[test]
fn test_alternating() {
    let vec = vec![1, 2, 1, 2, 1, 2];
    let result: Vec<_> = dedup_all(&vec);
    assert_eq!(result, vec![1, 2, 1, 2, 1, 2]);
}

#[test]
fn dedup_test_with_strings() {
    let vec = vec!["a", "a", "b", "b", "c", "a"];
    let result: Vec<_> = dedup_texts(&vec);
    assert_eq!(result, vec!["a", "b", "c", "a"]);
}

#[test]
fn dedup_iterator_on_strings() {
    let vec = vec!["a", "a", "b", "b", "c", "a"];
    let result: Vec<_> = dedup_all(&vec);
    assert_eq!(result, vec!["a", "b", "c", "a"]);
}

#[test]
fn test_consecutive_pairs() {
    let vec = vec![1, 1, 2, 2, 3, 3];
    let result: Vec<_> = dedup_all(&vec);
    assert_eq!(result, vec![1, 2, 3]);
}

#[test]
fn dedup_next_steps_through_groups() {
    let vec = vec![5u64, 5, 6];
    let mut it = vec.as_slice().dedup();
    assert_eq!(it.next(), Some(5));
    assert_eq!(it.next(), Some(6));
    assert_eq!(it.next(), None);
    assert_eq!(it.next(), None);
}

#[test]
fn dedup_count_counts_groups() {
    let vec = vec![3usize, 3, 4, 4, 4, 3];
    assert_eq!(vec.as_slice().dedup().count(), 3);
}

#[test]
fn dedup_twice_changes_nothing_more() {
    let vec = vec![5, 5, 1, 2, 2, 5, 5, 5];
    let once = dedup_all(&vec);
    assert_eq!(once, vec![5, 1, 2, 5]);
    assert_eq!(dedup_all(&once), once);
    assert!(once.windows(2).all(|w| w[0] != w[1]));
}

#[test]
fn dedup_of_str_items_counts_groups() {
    let words = vec!["x", "x", "y", "x"];
    assert_eq!(words.as_slice().dedup().count(), 3);
}

#[test]
fn dedup_texts_compares_by_characters() {
    let owned = String::from("a");
    let vec = vec!["a", owned.as_str(), "b", "b", "c", "a"];
    assert_eq!(dedup_texts(&vec), vec!["a", "b", "c", "a"]);
    assert_eq!(dedup_texts(&[]), Vec::<&str>::new());
    assert_eq!(dedup_texts(&["é", "e", "é", "é"]), vec!["é", "e", "é"]);
    assert!(same_text("über", "über"));
    assert!(!same_text("ab", "abc"));
}

#[test]
fn dedup_texts_twice_changes_nothing_more() {
    let vec = vec!["x", "x", "y", "x", "x", "z", "z"];
    let once = dedup_texts(&vec);
    assert_eq!(once, vec!["x", "y", "x", "z"]);
    assert_eq!(dedup_texts(&once), once);
}
