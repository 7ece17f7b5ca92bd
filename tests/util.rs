use algorithms::util::is_sorted;

#[test]
fn test_is_sorted() {
    let v = vec![5, 4, 3, 2, 1];
    assert!(!is_sorted(&v));

    let v = vec![1, 2, 3, 4, 5];
    assert!(is_sorted(&v));
}

#[test]
fn is_sorted_is_strict_and_accepts_short_slices() {
    let v = vec![1, 2, 2, 3];
    assert!(!is_sorted(&v));
    let e: Vec<i32> = vec![];
    assert!(is_sorted(&e));
    let s = vec![42];
    assert!(is_sorted(&s));
}
