use std::sync::Arc;

use brlang::radix::index_fits;
use brlang::sparsevec::SparseVec;

fn listing(v: &SparseVec<i64>) -> Vec<(usize, i64)> {
    v.entries().into_iter().map(|(i, x)| (i, *x)).collect()
}

fn from_pairs(pairs: &[(usize, i64)]) -> SparseVec<i64> {
    SparseVec::from_entries(pairs.to_vec())
}

#[test]
fn new_is_empty() {
    let v: SparseVec<i64> = SparseVec::new();
    assert_eq!(v.count(), 0);
    assert_eq!(v.get(0), None);
    assert_eq!(v.first_index(), None);
    assert_eq!(v.last_index(), None);
    assert_eq!(v.start_index(), 0);
    assert_eq!(v.next_index(), 0);
    assert!(v.entries().is_empty());
}

#[test]
fn unit_holds_one_value() {
    let v = SparseVec::unit(70, 5i64);
    assert_eq!(v.count(), 1);
    assert_eq!(v.get(70), Some(&5));
    assert_eq!(v.get(69), None);
    assert_eq!(v.get(71), None);
    assert_eq!(listing(&v), vec![(70, 5)]);
    let w = SparseVec::unit_arc(3, Arc::new(9i64));
    assert_eq!(listing(&w), vec![(3, 9)]);
}

#[test]
fn insert_overwrites_and_orders() {
    let mut v = SparseVec::new();
    v.insert(1000, 1i64);
    v.insert(2, 2);
    v.insert(33, 3);
    v.insert(2, 4);
    v.insert_arc(0, Arc::new(5));
    assert_eq!(listing(&v), vec![(0, 5), (2, 4), (33, 3), (1000, 1)]);
    assert_eq!(v.count(), 4);
    assert_eq!(v.first_index(), Some(0));
    assert_eq!(v.last_index(), Some(1000));
    assert_eq!(v.next_index(), 1001);
    assert_eq!(*v.index(33), 3);
}

#[test]
fn large_indices_are_reached() {
    let mut v = SparseVec::new();
    let big = 1usize << 40;
    v.insert(big, 7i64);
    v.insert(1, 8);
    assert_eq!(v.get(big), Some(&7));
    assert_eq!(v.get(big + 1), None);
    assert_eq!(listing(&v), vec![(1, 8), (big, 7)]);
}

#[test]
fn start_index_is_smallest() {
    let v = from_pairs(&[(5, 1), (9, 2)]);
    assert_eq!(v.start_index(), 5);
    assert_eq!(v.first_index(), Some(5));
}

#[test]
fn entries_arc_and_unsparse() {
    let v = from_pairs(&[(4, 40), (1, 10), (7, 70)]);
    let arcs: Vec<(usize, i64)> = v.entries_arc().into_iter().map(|(i, x)| (i, *x)).collect();
    assert_eq!(arcs, vec![(1, 10), (4, 40), (7, 70)]);
    let values: Vec<i64> = v.unsparse().into_iter().copied().collect();
    assert_eq!(values, vec![10, 40, 70]);
}

#[test]
fn from_entries_later_wins() {
    let v = from_pairs(&[(3, 1), (3, 2)]);
    assert_eq!(listing(&v), vec![(3, 2)]);
    let w = SparseVec::from_entries_arc(vec![(2, Arc::new(6i64)), (0, Arc::new(5))]);
    assert_eq!(listing(&w), vec![(0, 5), (2, 6)]);
}

#[test]
fn map_indexed_sees_index_and_value() {
    let v = from_pairs(&[(1, 10), (5, 50)]);
    let w = v.map_indexed(|i, x| i as i64 + *x);
    assert_eq!(listing(&w), vec![(1, 11), (5, 55)]);
}

#[test]
fn retain_keeps_chosen_indices() {
    let v = from_pairs(&[(1, 10), (2, 20), (3, 30), (4, 40)]);
    let w = v.retain(|i| i % 2 == 0);
    assert_eq!(listing(&w), vec![(2, 20), (4, 40)]);
    assert_eq!(listing(&v), vec![(1, 10), (2, 20), (3, 30), (4, 40)]);
}

#[test]
fn bake_computes_from_indices() {
    let v = from_pairs(&[(1, 0), (2, 0), (3, 0)]);
    let w: SparseVec<i64> = v.bake(|i| if i == 2 { None } else { Some(i as i64 * 100) });
    assert_eq!(listing(&w), vec![(1, 100), (3, 300)]);
}

#[test]
fn merge_prefers_right() {
    let mut a = from_pairs(&[(0, 1), (5, 2)]);
    let b = from_pairs(&[(5, 3), (1000, 4)]);
    a.merge(b);
    assert_eq!(listing(&a), vec![(0, 1), (5, 3), (1000, 4)]);
}

#[test]
fn merge_with_itself_changes_nothing() {
    let mut a = from_pairs(&[(0, 1), (9, 2), (40, 3)]);
    let b = a.clone();
    a.merge(b);
    assert_eq!(listing(&a), vec![(0, 1), (9, 2), (40, 3)]);
}

#[test]
fn merge_is_associative() {
    let x = from_pairs(&[(0, 1), (3, 2)]);
    let y = from_pairs(&[(3, 5), (70, 6)]);
    let z = from_pairs(&[(0, 8), (2000, 9)]);
    let mut left = x.clone();
    left.merge(y.clone());
    left.merge(z.clone());
    let mut yz = y.clone();
    yz.merge(z.clone());
    let mut right = x.clone();
    right.merge(yz);
    assert_eq!(listing(&left), listing(&right));
}

#[test]
fn append_moves_past_the_end() {
    let mut a = from_pairs(&[(2, 1), (4, 2)]);
    let b = from_pairs(&[(10, 3), (12, 4)]);
    a.append(&b);
    assert_eq!(listing(&a), vec![(2, 1), (4, 2), (5, 3), (7, 4)]);
}

#[test]
fn append_to_empty_keeps_spacing_from_zero() {
    let mut a: SparseVec<i64> = SparseVec::new();
    a.append(&from_pairs(&[(3, 1), (6, 2)]));
    assert_eq!(listing(&a), vec![(0, 1), (3, 2)]);
}

#[test]
fn append_dense_is_dense_of_both() {
    let mut a = SparseVec::from_vec(vec![1i64, 2, 3]);
    a.append(&SparseVec::from_vec(vec![4, 5]));
    assert_eq!(a.try_into_vec(), Ok(vec![1, 2, 3, 4, 5]));
}

#[test]
fn concat_lays_vectors_one_after_another() {
    let parts = vec![
        SparseVec::from_vec(vec![1i64, 2, 3]),
        SparseVec::from_vec(vec![4]),
        SparseVec::from_vec(vec![5, 6]),
    ];
    let all = SparseVec::concat(&parts).unwrap();
    assert_eq!(all.try_into_vec(), Ok(vec![1, 2, 3, 4, 5, 6]));
}

#[test]
fn concat_of_nothing_is_empty() {
    let parts: Vec<SparseVec<i64>> = vec![];
    let all = SparseVec::concat(&parts).unwrap();
    assert_eq!(all.count(), 0);
}

#[test]
fn concat_keeps_gaps() {
    let parts = vec![from_pairs(&[(1, 1), (3, 2)]), SparseVec::new(), from_pairs(&[(7, 3), (9, 4)])];
    let all = SparseVec::concat(&parts).unwrap();
    assert_eq!(listing(&all), vec![(0, 1), (2, 2), (3, 3), (5, 4)]);
}

#[test]
fn concat_refuses_indices_out_of_reach() {
    let big = 1usize << 59;
    let parts = vec![from_pairs(&[(0, 1), (big, 2)]), from_pairs(&[(0, 3), (big, 4)])];
    assert!(SparseVec::concat(&parts).is_none());
}

#[test]
fn index_fits_bound() {
    assert!(index_fits(0));
    assert!(index_fits((1usize << 60) - 1));
    assert!(!index_fits(1usize << 60));
    assert!(!index_fits(usize::MAX));
}

#[test]
fn from_vec_and_back() {
    let v = SparseVec::from_vec(vec![7i64, 8, 9]);
    assert_eq!(listing(&v), vec![(0, 7), (1, 8), (2, 9)]);
    assert_eq!(v.try_into_vec(), Ok(vec![7, 8, 9]));
    let e: SparseVec<i64> = SparseVec::from_vec(vec![]);
    assert_eq!(e.try_into_vec(), Ok(vec![]));
}

#[test]
fn try_into_vec_errors() {
    let v = from_pairs(&[(1, 1), (2, 2)]);
    assert_eq!(v.try_into_vec(), Err("Not starting at 0"));
    let w = from_pairs(&[(0, 1), (2, 2)]);
    assert_eq!(w.try_into_vec(), Err("Not contiguous"));
}

#[test]
fn range_holds_indices() {
    let v: SparseVec<usize> = SparseVec::range(3, 6);
    let got: Vec<(usize, usize)> = v.entries().into_iter().map(|(i, x)| (i, *x)).collect();
    assert_eq!(got, vec![(3, 3), (4, 4), (5, 5)]);
    let e: SparseVec<usize> = SparseVec::range(6, 3);
    assert_eq!(e.count(), 0);
}

#[test]
fn rebuild_from_listing() {
    let v = from_pairs(&[(9, 1), (0, 2), (33, 3)]);
    let again = SparseVec::from_entries(listing(&v));
    assert_eq!(listing(&again), listing(&v));
}

#[test]
fn same_entries_same_listing() {
    let a = from_pairs(&[(40, 4), (2, 2), (7, 7)]);
    let mut b = SparseVec::new();
    b.insert(7, 7i64);
    b.insert(40, 4);
    b.insert(2, 2);
    assert_eq!(listing(&a), listing(&b));
}

#[test]
fn numbered_then_converted_back() {
    let v = vec![3i64, 1, 4, 1, 5];
    assert_eq!(SparseVec::from_vec(v.clone()).try_into_vec(), Ok(v));
}

#[test]
fn append_adds_counts() {
    let mut a = from_pairs(&[(0, 1), (9, 2)]);
    let b = from_pairs(&[(0, 3), (4, 4), (5, 5)]);
    let before = a.count();
    a.append(&b);
    assert_eq!(a.count(), before + b.count());
    assert_eq!(listing(&b), vec![(0, 3), (4, 4), (5, 5)]);
}

#[test]
fn range_usize_holds_its_indices() {
    let v = SparseVec::range_usize(2, 5);
    let got: Vec<(usize, usize)> = v.entries().into_iter().map(|(i, x)| (i, *x)).collect();
    assert_eq!(got, vec![(2, 2), (3, 3), (4, 4)]);
    assert_eq!(SparseVec::range_usize(3, 3).count(), 0);
    assert_eq!(SparseVec::range_usize(5, 2).count(), 0);
}
