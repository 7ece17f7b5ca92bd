use algorithms::sorting::{bubble_sort, insertion_sort, merge_sort, quick_sort, selection_sort};

#[derive(Debug, Clone, Copy, Hash, PartialOrd, PartialEq, Ord, Eq)]
struct Data {
    pub key: i32,
    pub satellite_data: i32,
}

fn sample_data() -> Vec<Data> {
    vec![
        Data { key: 1, satellite_data: 1 },
        Data { key: 2, satellite_data: 2 },
        Data { key: 3, satellite_data: 4 },
        Data { key: 2, satellite_data: 3 },
        Data { key: 3, satellite_data: 5 },
    ]
}

fn sorted_sample_data() -> Vec<Data> {
    vec![
        Data { key: 1, satellite_data: 1 },
        Data { key: 2, satellite_data: 2 },
        Data { key: 2, satellite_data: 3 },
        Data { key: 3, satellite_data: 4 },
        Data { key: 3, satellite_data: 5 },
    ]
}

/// Records whose keys repeat, in an order that a sort by key alone must keep
/// within each key.
fn keyed_records() -> Vec<Data> {
    vec![
        Data { key: 3, satellite_data: 9 },
        Data { key: 1, satellite_data: 8 },
        Data { key: 3, satellite_data: 1 },
        Data { key: 2, satellite_data: 7 },
        Data { key: 1, satellite_data: 2 },
        Data { key: 2, satellite_data: 0 },
        Data { key: 3, satellite_data: 5 },
    ]
}

fn keyed_records_by_key() -> Vec<Data> {
    vec![
        Data { key: 1, satellite_data: 8 },
        Data { key: 1, satellite_data: 2 },
        Data { key: 2, satellite_data: 7 },
        Data { key: 2, satellite_data: 0 },
        Data { key: 3, satellite_data: 9 },
        Data { key: 3, satellite_data: 1 },
        Data { key: 3, satellite_data: 5 },
    ]
}

#[test]
fn test_bubble_sort() {
    let mut v = vec![5, 4, 3, 2, 1];
    bubble_sort(&mut v, &|x, y| x < y);
    assert_eq!(v, vec![1, 2, 3, 4, 5]);

    let mut v = vec![1, 2, 3, 4, 5, 5, 4, 3, 2, 1];
    bubble_sort(&mut v, &|x, y| x < y);
    assert_eq!(v, vec![1, 1, 2, 2, 3, 3, 4, 4, 5, 5]);

    let mut v = vec![1, 2, 3, 4, 5];
    bubble_sort(&mut v, &|x, y| x > y);
    assert_eq!(v, vec![5, 4, 3, 2, 1]);

    let mut v = sample_data();
    bubble_sort(&mut v, &|x, y| x < y);
    assert_eq!(v, sorted_sample_data());

    let mut v = vec!["abcde", "abcd", "abc", "ab", "a"];
    bubble_sort(&mut v, &|x, y| x.len() < y.len());
    assert_eq!(v, vec!["a", "ab", "abc", "abcd", "abcde"]);
}

#[test]
fn test_insertion_sort() {
    let mut v = vec![5, 4, 3, 2, 1];
    insertion_sort(&mut v, &|x, y| x < y);
    assert_eq!(v, vec![1, 2, 3, 4, 5]);

    let mut v = vec![1, 2, 3, 4, 5, 5, 4, 3, 2, 1];
    insertion_sort(&mut v, &|x, y| x < y);
    assert_eq!(v, vec![1, 1, 2, 2, 3, 3, 4, 4, 5, 5]);

    let mut v = vec![1, 2, 3, 4, 5];
    insertion_sort(&mut v, &|x, y| x > y);
    assert_eq!(v, vec![5, 4, 3, 2, 1]);

    let mut v = sample_data();
    insertion_sort(&mut v, &|x, y| x < y);
    assert_eq!(v, sorted_sample_data());

    let mut v = vec!["abcde", "abcd", "abc", "ab", "a"];
    insertion_sort(&mut v, &|x, y| x.len() < y.len());
    assert_eq!(v, vec!["a", "ab", "abc", "abcd", "abcde"]);
}

#[test]
fn test_selection_sort() {
    let mut v = vec![5, 4, 3, 2, 1];
    selection_sort(&mut v);
    assert_eq!(v, vec![1, 2, 3, 4, 5]);

    let mut v = vec![1, 2, 3, 4, 5, 5, 4, 3, 2, 1];
    selection_sort(&mut v);
    assert_eq!(v, vec![1, 1, 2, 2, 3, 3, 4, 4, 5, 5]);

    let mut v = vec![1, 2, 3, 4, 5];
    selection_sort(&mut v);
    assert_eq!(v, vec![1, 2, 3, 4, 5]);
}

#[test]
fn test_merge_sort() {
    let mut v = vec![5, 4, 3, 2, 1];
    merge_sort(&mut v, &|x, y| x < y);
    assert_eq!(v, vec![1, 2, 3, 4, 5]);

    let mut v = vec![1, 2, 3, 4, 5, 5, 4, 3, 2, 1];
    merge_sort(&mut v, &|x, y| x < y);
    assert_eq!(v, vec![1, 1, 2, 2, 3, 3, 4, 4, 5, 5]);

    let mut v = vec![1, 2, 3, 4, 5];
    merge_sort(&mut v, &|x, y| x > y);
    assert_eq!(v, vec![5, 4, 3, 2, 1]);

    let mut v = sample_data();
    merge_sort(&mut v, &|x, y| x < y);
    assert_eq!(v, sorted_sample_data());

    let mut v = vec!["abcde", "abcd", "abc", "ab", "a"];
    merge_sort(&mut v, &|x, y| x.len() < y.len());
    assert_eq!(v, vec!["a", "ab", "abc", "abcd", "abcde"]);
}

#[test]
fn test_quick_sort() {
    let mut v = vec![5, 4, 3, 2, 1];
    quick_sort(&mut v, &|x, y| x < y);
    assert_eq!(v, vec![1, 2, 3, 4, 5]);

    let mut v = vec![1, 2, 3, 4, 5, 5, 4, 3, 2, 1];
    quick_sort(&mut v, &|x, y| x < y);
    assert_eq!(v, vec![1, 1, 2, 2, 3, 3, 4, 4, 5, 5]);

    let mut v = vec![1, 2, 3, 4, 5];
    quick_sort(&mut v, &|x, y| x > y);
    assert_eq!(v, vec![5, 4, 3, 2, 1]);

    let mut v = sample_data();
    quick_sort(&mut v, &|x, y| x < y);
    assert_eq!(v, sorted_sample_data());

    let mut v = vec!["abcde", "abcd", "abc", "ab", "a"];
    quick_sort(&mut v, &|x, y| x.len() < y.len());
    assert_eq!(v, vec!["a", "ab", "abc", "abcd", "abcde"]);
}

#[test]
fn merge_sort_by_key_keeps_input_order_of_equal_keys() {
    let mut v = sample_data();
    merge_sort(&mut v, &|x, y| x.key < y.key);
    assert_eq!(v, sorted_sample_data());

    let mut v = keyed_records();
    merge_sort(&mut v, &|x, y| x.key < y.key);
    assert_eq!(v, keyed_records_by_key());
}

#[test]
fn bubble_sort_by_key_keeps_input_order_of_equal_keys() {
    let mut v = keyed_records();
    bubble_sort(&mut v, &|x, y| x.key < y.key);
    assert_eq!(v, keyed_records_by_key());
}

#[test]
fn insertion_sort_by_key_keeps_input_order_of_equal_keys() {
    let mut v = keyed_records();
    insertion_sort(&mut v, &|x, y| x.key < y.key);
    assert_eq!(v, keyed_records_by_key());
}

#[test]
fn quick_sort_by_key_orders_keys_and_keeps_records() {
    let mut v = keyed_records();
    quick_sort(&mut v, &|x, y| x.key < y.key);
    let keys: Vec<i32> = v.iter().map(|d| d.key).collect();
    assert_eq!(keys, vec![1, 1, 2, 2, 3, 3, 3]);
    let mut got = v.clone();
    got.sort();
    let mut want = keyed_records();
    want.sort();
    assert_eq!(got, want);
}

#[test]
fn sorts_accept_empty_and_single_element_slices() {
    let mut e: Vec<i32> = vec![];
    bubble_sort(&mut e, &|x, y| x < y);
    insertion_sort(&mut e, &|x, y| x < y);
    selection_sort(&mut e);
    merge_sort(&mut e, &|x, y| x < y);
    quick_sort(&mut e, &|x, y| x < y);
    assert_eq!(e, Vec::<i32>::new());

    let mut s = vec![7];
    bubble_sort(&mut s, &|x, y| x < y);
    insertion_sort(&mut s, &|x, y| x < y);
    selection_sort(&mut s);
    merge_sort(&mut s, &|x, y| x < y);
    quick_sort(&mut s, &|x, y| x < y);
    assert_eq!(s, vec![7]);
}

#[test]
fn sorting_a_sorted_slice_leaves_it_unchanged() {
    let sorted = vec![1, 2, 2, 3, 8, 9];
    let mut v = sorted.clone();
    bubble_sort(&mut v, &|x, y| x < y);
    assert_eq!(v, sorted);
    insertion_sort(&mut v, &|x, y| x < y);
    assert_eq!(v, sorted);
    merge_sort(&mut v, &|x, y| x < y);
    assert_eq!(v, sorted);
    quick_sort(&mut v, &|x, y| x < y);
    assert_eq!(v, sorted);
    selection_sort(&mut v);
    assert_eq!(v, sorted);

    let mut w = keyed_records();
    merge_sort(&mut w, &|x, y| x.key < y.key);
    let once = w.clone();
    merge_sort(&mut w, &|x, y| x.key < y.key);
    assert_eq!(w, once);
}

#[test]
fn sorts_keep_every_element() {
    let input = vec![4, -1, 4, 0, 9, -1, 3, 4];
    let mut want = input.clone();
    want.sort();
    let mut a = input.clone();
    bubble_sort(&mut a, &|x, y| x < y);
    assert_eq!(a, want);
    let mut b = input.clone();
    insertion_sort(&mut b, &|x, y| x < y);
    assert_eq!(b, want);
    let mut c = input.clone();
    selection_sort(&mut c);
    assert_eq!(c, want);
    let mut d = input.clone();
    merge_sort(&mut d, &|x, y| x < y);
    assert_eq!(d, want);
    let mut e = input.clone();
    quick_sort(&mut e, &|x, y| x < y);
    assert_eq!(e, want);
}
