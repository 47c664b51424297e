//! Full runs of each algorithm over a shuffled buffer, driven step by step
//! until `Done`, as the render loop would drive them.

use sortviz::ARRAY_LEN;
use sortviz::sort::{
    is_sorted, shuffle, BubbleSort, CocktailShakerSort, InsertionSort, QuickSort, SelectionSort,
    Sort, SortResult,
};

fn fresh_array() -> Vec<usize> {
    (1..=ARRAY_LEN).collect()
}

fn run_to_done<S: Sort>(sort: &mut S, array: &mut Vec<usize>) {
    loop {
        match sort.step(array) {
            SortResult::Done => break,
            _ => (),
        }
    }
}

#[test]
fn sort_bubble_sort() {
    let mut array = fresh_array();
    shuffle(&mut array);
    let mut sort = BubbleSort::new();
    run_to_done(&mut sort, &mut array);
    assert!(is_sorted(&array));
}

#[test]
fn sort_insertion_sort() {
    let mut array = fresh_array();
    shuffle(&mut array);
    let mut sort = InsertionSort::new();
    run_to_done(&mut sort, &mut array);
    assert!(is_sorted(&array));
}

#[test]
fn sort_selection_sort() {
    let mut array = fresh_array();
    shuffle(&mut array);
    let mut sort = SelectionSort::new();
    run_to_done(&mut sort, &mut array);
    assert!(is_sorted(&array));
}

#[test]
fn sort_quicksort() {
    let mut array = fresh_array();
    shuffle(&mut array);
    let mut sort = QuickSort::new();
    run_to_done(&mut sort, &mut array);
    assert!(is_sorted(&array));
}

#[test]
fn mod_bubble_sort() {
    let mut array = fresh_array();
    shuffle(&mut array);
    let mut sort = BubbleSort::new();
    run_to_done(&mut sort, &mut array);
    assert!(is_sorted(&array));
}

#[test]
fn cocktail_shaker_sort() {
    let mut array = fresh_array();
    shuffle(&mut array);
    let mut sort = CocktailShakerSort::new();
    run_to_done(&mut sort, &mut array);
    assert!(is_sorted(&array));
}

#[test]
fn mod_insertion_sort() {
    let mut array = fresh_array();
    shuffle(&mut array);
    let mut sort = InsertionSort::new();
    run_to_done(&mut sort, &mut array);
    assert!(is_sorted(&array));
}

#[test]
fn mod_selection_sort() {
    let mut array = fresh_array();
    shuffle(&mut array);
    let mut sort = SelectionSort::new();
    run_to_done(&mut sort, &mut array);
    assert!(is_sorted(&array));
}

#[test]
fn mod_quicksort() {
    let mut array = fresh_array();
    shuffle(&mut array);
    let mut sort = QuickSort::new();
    run_to_done(&mut sort, &mut array);
    assert!(is_sorted(&array));
}

#[test]
fn bogosort_small() {
    // Bogosort has no termination bound, so run it on a tiny buffer and
    // under an explicit step cap (the odds of reaching it are negligible).
    let mut array: Vec<usize> = vec![2, 3, 1];
    shuffle(&mut array);
    let mut sort = sortviz::sort::BogoSort::new();
    let mut done = false;
    for _ in 0..1_000_000 {
        if let SortResult::Done = sort.step(&mut array) {
            done = true;
            break;
        }
    }
    assert!(done);
    assert!(is_sorted(&array));
    let mut check = array.clone();
    check.sort();
    assert_eq!(check, vec![1, 2, 3]);
}

#[test]
fn full_sortedness_strict() {
    // The relaxed check is weaker than true sortedness; the deterministic
    // variants guarantee the strict property.
    let mut array = fresh_array();
    shuffle(&mut array);
    let mut sort = QuickSort::new();
    run_to_done(&mut sort, &mut array);
    for i in 0..array.len() - 1 {
        assert!(array[i] <= array[i + 1]);
    }
    let expected: Vec<usize> = (1..=ARRAY_LEN).collect();
    assert_eq!(array, expected);
}

#[test]
fn shuffle_keeps_elements() {
    let mut array = fresh_array();
    shuffle(&mut array);
    assert_eq!(array.len(), ARRAY_LEN);
    let mut check = array.clone();
    check.sort();
    let expected: Vec<usize> = (1..=ARRAY_LEN).collect();
    assert_eq!(check, expected);
}
