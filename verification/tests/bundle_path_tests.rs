use std::collections::HashSet;
use frank_wolfe::bundle_index::{Bundle, BundleIndex};
use frank_wolfe::common::BUNDLE_IDX_EMPTY;
use frank_wolfe::frank_wolfe::partial_min;
use frank_wolfe::path_index::{Path, PathIndex};

#[test]
fn bundle_from_permits_sorts_and_dedups() {
    let b = Bundle::from_permits(vec![5, 1, 3, 1, 5]);
    assert_eq!(b.permits(), &[1, 3, 5]);
    assert_eq!(Bundle::empty().permits(), &[] as &[usize]);
}

#[test]
fn bundle_union_and_count() {
    let a = Bundle::from_permits(vec![1, 4, 6]);
    let b = Bundle::from_permits(vec![2, 4, 7]);
    assert_eq!(a.union_count(&b), 5);
    assert_eq!(a.union(&b).permits(), &[1, 2, 4, 6, 7]);
    assert_eq!(b.union(&a).permits(), &[1, 2, 4, 6, 7]);
    assert_eq!(a.union(&a).permits(), &[1, 4, 6]);
    let c = Bundle::from_permits(vec![4]);
    assert_eq!(a.union_count(&c), 3);
    let same = Bundle::from_permits(vec![1, 4, 6]).into_union(&c);
    assert_eq!(same.permits(), &[1, 4, 6]);
    let grown = Bundle::from_permits(vec![1]).into_union(&b);
    assert_eq!(grown.permits(), &[1, 2, 4, 7]);
}

#[test]
fn bundle_set_minus() {
    let a = Bundle::from_permits(vec![1, 2, 3, 4]);
    let b = Bundle::from_permits(vec![2, 4, 8]);
    assert_eq!(a.set_minus_iter(&b).into_vec(), vec![1, 3]);
    assert_eq!(b.set_minus_iter(&a).into_vec(), vec![8]);
    assert_eq!(a.set_minus_iter(&Bundle::empty()).into_vec(), vec![1, 2, 3, 4]);
}

#[test]
fn path_keeps_edge_order() {
    let p = Path::from_edges(vec![7, 3, 5]);
    assert_eq!(p.edges(), &[7, 3, 5]);
    assert_eq!(p.len(), 3);
    assert_eq!(Path::empty().len(), 0);
    let q = Path::from_edges(vec![1, 3, 9]);
    let r = Path::from_edges(vec![3, 4]);
    assert_eq!(q.union(&r).edges(), &[1, 3, 4, 9]);
    assert_eq!(q.union_count(&r), 4);
    assert_eq!(q.set_minus_iter(&r).into_vec(), vec![1, 9]);
}

#[test]
fn bundle_index_interns_once() {
    let mut index = BundleIndex::new();
    assert_eq!(index.len(), 1);
    assert_eq!(index.get_by_idx(BUNDLE_IDX_EMPTY).permits(), &[] as &[usize]);
    let i = index.transfer_element(Bundle::from_permits(vec![3, 1]));
    assert_eq!(i, 1);
    let j = index.transfer_element(Bundle::from_permits(vec![1, 3, 3]));
    assert_eq!(j, 1);
    assert_eq!(index.len(), 2);
    assert_eq!(index.find_idx(&Bundle::from_permits(vec![1, 3])), Some(1));
    assert_eq!(index.find_idx(&Bundle::from_permits(vec![2])), None);
    assert_eq!(index.find_idx(&Bundle::empty()), Some(BUNDLE_IDX_EMPTY));
    assert_eq!(index.element_ids(), 0..2);
}

#[test]
fn path_index_interns_by_edge_sequence() {
    let mut index = PathIndex::new();
    assert_eq!(index.transfer_element(Path::from_edges(vec![2, 1])), 1);
    assert_eq!(index.transfer_element(Path::from_edges(vec![1, 2])), 2);
    assert_eq!(index.transfer_element(Path::from_edges(vec![2, 1])), 1);
    assert_eq!(index.get_by_idx(2).edges(), &[1, 2]);
    assert_eq!(index.find_idx(&Path::empty()), Some(0));
}

#[test]
fn partial_min_prefers_second_when_incomparable() {
    assert_eq!(partial_min(3, 5), 3);
    assert_eq!(partial_min(5, 3), 3);
    assert_eq!(partial_min(4, 4), 4);
    assert_eq!(partial_min(1.5f64, 2.5), 1.5);
    assert!(partial_min(1.0f64, f64::NAN).is_nan());
    assert_eq!(partial_min(f64::NAN, 1.0f64), 1.0);
}

#[test]
fn bundles_with_the_same_permits_are_equal() {
    let a = Bundle::from_permits(vec![3, 1]);
    let b = Bundle::from_permits(vec![1, 3, 3]);
    assert_eq!(a, b);
    assert_ne!(a, Bundle::empty());
    let set: HashSet<Bundle> = vec![a, b, Bundle::empty()].into_iter().collect();
    assert_eq!(set.len(), 2);
}
