use shape_battle::iter::unique;
use shape_battle::vec::{intersection, intersections};

#[test]
fn unique_when_empty() {
    let items: Vec<String> = vec![];
    let unique = unique(items);

    assert!(unique.first().is_none());
}

#[test]
fn unique_without_duplicates() {
    let items = vec!["one", "two", "three"];
    let mut unique = unique(items).into_iter();

    assert_eq!(unique.next().unwrap().to_string(), String::from("one"));
    assert_eq!(unique.next().unwrap().to_string(), String::from("two"));
    assert_eq!(unique.next().unwrap().to_string(), String::from("three"));
    assert!(unique.next().is_none());
}

#[test]
fn unique_with_duplicates() {
    let items = vec!["one", "two", "one", "three", "two"];
    let mut unique = unique(items).into_iter();

    assert_eq!(unique.next().unwrap().to_string(), String::from("one"));
    assert_eq!(unique.next().unwrap().to_string(), String::from("two"));
    assert_eq!(unique.next().unwrap().to_string(), String::from("three"));
    assert!(unique.next().is_none());
}

#[test]
fn intersection_empty_for_empty_vecs() {
    let v1: Vec<&str> = vec![];
    let v2: Vec<&str> = vec![];

    assert_eq!(intersection(v1, v2).len(), 0);
}

#[test]
fn intersection_empty_without_overlap() {
    let v1: Vec<&str> = vec!["1", "2"];
    let v2: Vec<&str> = vec!["4", "3"];

    let result = intersection(v1, v2);

    assert_eq!(result.len(), 0);
}

#[test]
fn intersection_with_overlap() {
    let v1: Vec<&str> = vec!["1", "3", "2"];
    let v2: Vec<&str> = vec!["2", "4", "3"];

    let result = intersection(v1, v2);

    assert_eq!(result.len(), 2);
    assert_eq!(result, vec!["3", "2"]);
}

#[test]
fn intersections_with_no_overlap() {
    let sets = vec![vec!["1", "2"], vec!["3", "4"], vec!["5", "6"]];

    let result = intersections(sets);

    assert_eq!(result.len(), 0);
}

#[test]
fn intersections_with_overlap() {
    let sets = vec![
        vec!["1", "2", "5"],
        vec!["3", "1", "4", "5"],
        vec!["5", "6", "1"],
    ];

    let result = intersections(sets);

    assert_eq!(result.len(), 2);
    assert_eq!(result, vec!["5", "1"]);
}

#[test]
fn intersections_of_nothing_is_empty() {
    let sets: Vec<Vec<u128>> = vec![];
    assert!(intersections(sets).is_empty());
}

#[test]
fn intersections_of_one_set_is_that_set() {
    let sets = vec![vec![3u128, 1, 2]];
    assert_eq!(intersections(sets), vec![3u128, 1, 2]);
}

#[test]
fn unique_integers_keep_first_occurrence() {
    assert_eq!(unique(vec![4u128, 2, 4, 9, 2, 2]), vec![4u128, 2, 9]);
}
