use algorithms::searching::{binary_search, linear_search};

#[test]
fn test_linear_search() {
    let v = vec![1, 2, 3, 4, 5, 5, 4, 3, 2, 1];

    assert_eq!(linear_search(&v, &1), Some(0));
    assert_eq!(linear_search(&v, &5), Some(4));
    assert_eq!(linear_search(&v, &6), None);
    assert_eq!(linear_search(&v, &0), None);
}

#[test]
fn test_binary_search() {
    let v = (0..1000).collect::<Vec<i32>>();

    assert_eq!(binary_search(&v, &1), Some(1));
    assert_eq!(binary_search(&v, &999), Some(999));
    assert_eq!(binary_search(&v, &1000), None);
    assert_eq!(binary_search(&v, &-1), None);

    let v = vec![5, 4, 3, 2, 1];
    assert_eq!(binary_search(&v, &4), None);
}

#[test]
fn searches_on_empty_slices_find_nothing() {
    let v: Vec<i32> = vec![];
    assert_eq!(linear_search(&v, &3), None);
    assert_eq!(binary_search(&v, &3), None);
}

#[test]
fn binary_search_finds_every_element_and_rejects_duplicates() {
    let v = vec![-7, -2, 0, 3, 10, 11, 40];
    for (i, x) in v.iter().enumerate() {
        assert_eq!(binary_search(&v, x), Some(i));
    }
    assert_eq!(binary_search(&v, &1), None);
    assert_eq!(binary_search(&v, &41), None);
    assert_eq!(binary_search(&v, &-8), None);

    let with_duplicates = vec![1, 2, 2, 3];
    assert_eq!(binary_search(&with_duplicates, &1), None);
    assert_eq!(binary_search(&with_duplicates, &3), None);
}

#[test]
fn linear_search_on_strings() {
    let v = vec!["b", "a", "c", "a"];
    assert_eq!(linear_search(&v, &"a"), Some(1));
    assert_eq!(linear_search(&v, &"z"), None);
}
