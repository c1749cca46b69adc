use sorting_algs::{add, is_sorted, SortingAlgs};

#[test]
fn _bubble_sort() {
    let arr = &mut vec![1, 6, 5, 2];
    assert_eq!(arr.bubble_sort(), &mut *vec![1, 2, 5, 6])
}

#[test]
fn _insertion_sort() {
    let arr = &mut vec![1, 6, 5, 2];
    assert_eq!(arr.insertion_sort(), &mut *vec![1, 2, 5, 6])
}

#[test]
fn _selection_sort() {
    let arr = &mut vec![1, 6, 5, 2];
    assert_eq!(arr.selection_sort(), &mut *vec![1, 2, 5, 6])
}

#[test]
fn _quick_sort() {
    let arr = &mut vec![1, 6, 5, 2];
    assert_eq!(arr.quick_sort(), &mut *vec![1, 2, 5, 6])
}

fn all_sorts(input: &[i32]) -> Vec<Vec<i32>> {
    let mut a = input.to_vec();
    let mut b = input.to_vec();
    let mut c = input.to_vec();
    let mut d = input.to_vec();
    a.quick_sort();
    b.selection_sort();
    c.bubble_sort();
    d.insertion_sort();
    vec![a, b, c, d]
}

#[test]
fn every_sort_orders_mixed_signs() {
    for out in all_sorts(&[5, -10, 6, 2]) {
        assert_eq!(out, vec![-10, 2, 5, 6]);
    }
}

#[test]
fn bubble_sort_hands_back_same_storage() {
    let arr = &mut vec![5, -10, 6, 2];
    assert_eq!(arr.bubble_sort(), &mut *vec![-10, 2, 5, 6]);
    assert_eq!(*arr, vec![-10, 2, 5, 6]);
}

#[test]
fn every_sort_on_empty_and_single() {
    for out in all_sorts(&[]) {
        assert!(out.is_empty());
    }
    for out in all_sorts(&[42]) {
        assert_eq!(out, vec![42]);
    }
}

#[test]
fn every_sort_keeps_sorted_input() {
    let input = [-3, -3, 0, 7, 7, 9];
    for out in all_sorts(&input) {
        assert_eq!(out, input.to_vec());
    }
}

#[test]
fn every_sort_keeps_duplicates() {
    let input = [4, 1, 4, 4, 0, 1, -2, 4];
    for out in all_sorts(&input) {
        assert_eq!(out, vec![-2, 0, 1, 1, 4, 4, 4, 4]);
    }
}

#[test]
fn sorts_agree_on_reverse_and_extremes() {
    let input = [i32::MAX, 9, 8, 7, 6, 5, 4, 3, 2, 1, 0, i32::MIN];
    let outs = all_sorts(&input);
    assert_eq!(outs[0], vec![i32::MIN, 0, 1, 2, 3, 4, 5, 6, 7, 8, 9, i32::MAX]);
    for out in &outs {
        assert_eq!(out, &outs[0]);
    }
}

#[test]
fn sorts_agree_on_pseudo_random_input() {
    let mut x: u32 = 12345;
    let mut input = Vec::new();
    for _ in 0..200 {
        x = x.wrapping_mul(1103515245).wrapping_add(12345);
        input.push(((x >> 16) % 50) as i32 - 25);
    }
    let mut expected = input.clone();
    expected.sort();
    for out in all_sorts(&input) {
        assert_eq!(out, expected);
    }
}

#[test]
fn sorts_work_on_strings() {
    let mut v = vec!["pear", "apple", "fig", "apple"];
    v.quick_sort();
    assert_eq!(v, vec!["apple", "apple", "fig", "pear"]);
}

#[test]
fn is_sorted_detects_order() {
    assert!(is_sorted(&mut [1, 2, 2, 5]));
    assert!(!is_sorted(&mut [1, 3, 2]));
    assert!(is_sorted::<i32>(&mut []));
    assert!(is_sorted(&mut [7]));
}

#[test]
fn add_sums() {
    assert_eq!(add(2, 3), 5);
}
