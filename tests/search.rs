use sorting_algs::SearchAlgs;

#[test]
fn _bin_search() {
    let mut arr: [i32; 8] = rand::random();
    arr.sort();
    let target: i32 = arr[rand::random::<usize>() % 8];
    let offset = arr.bin_search(target).unwrap();
    assert_eq!(arr[offset], target)
}

#[test]
fn bin_search_finds_and_misses() {
    let arr = [-10, 2, 5, 6];
    assert_eq!(arr.bin_search(5), Some(2));
    assert_eq!(arr.bin_search(99), None);
}

#[test]
fn bin_search_finds_every_element() {
    let arr = [-10, 2, 5, 6, 11, 40, 41];
    for (i, &x) in arr.iter().enumerate() {
        assert_eq!(arr.bin_search(x), Some(i));
    }
    assert_eq!(arr.bin_search(-11), None);
    assert_eq!(arr.bin_search(3), None);
    assert_eq!(arr.bin_search(42), None);
}

#[test]
fn bin_search_first_of_two() {
    let arr = [1, 2];
    assert_eq!(arr.bin_search(1), Some(0));
    assert_eq!(arr.bin_search(2), Some(1));
}

#[test]
fn searches_on_empty_and_single() {
    let empty: [i32; 0] = [];
    assert_eq!(empty.bin_search(1), None);
    assert_eq!(empty.linear_search(1), None);
    let one = [7];
    assert_eq!(one.bin_search(7), Some(0));
    assert_eq!(one.bin_search(8), None);
    assert_eq!(one.linear_search(7), Some(0));
    assert_eq!(one.linear_search(8), None);
}

#[test]
fn linear_search_returns_first_match() {
    let arr = [3, 9, 4, 9, 9];
    assert_eq!(arr.linear_search(9), Some(1));
    assert_eq!(arr.linear_search(3), Some(0));
    assert_eq!(arr.linear_search(5), None);
}

#[test]
fn bin_search_in_duplicates_hits_a_match() {
    let arr = [1, 4, 4, 4, 4, 8];
    let i = arr.bin_search(4).unwrap();
    assert_eq!(arr[i], 4);
}
