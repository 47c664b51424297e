//! Exact step-by-step scenarios: which comparison each step makes, what it
//! reports, and how the buffer and the cursors evolve.

use sortviz::sort::{
    AnySort, BogoSort, BubbleSort, CocktailShakerSort, InsertionSort, QuickSort, SelectionSort,
    Sort, SortKind, SortResult,
};

#[test]
fn insertion_scenario_three_elements() {
    let mut a: Vec<usize> = vec![3, 1, 2];
    let mut s = InsertionSort::new();

    // step 1: compare (1, 0): 3 > 1, swap
    assert_eq!(s.step(&mut a), SortResult::Swap(vec![1, 0]));
    assert_eq!(a, vec![1, 3, 2]);
    assert_eq!(s.j, 0);

    // step 2: j == 0, no left neighbour: advance
    assert_eq!(s.step(&mut a), SortResult::Progress);
    assert_eq!((s.i, s.j), (2, 2));

    // step 3: compare (2, 1): 3 > 2, swap
    assert_eq!(s.step(&mut a), SortResult::Swap(vec![2, 1]));
    assert_eq!(a, vec![1, 2, 3]);
    assert_eq!(s.j, 1);

    // step 4: compare (1, 0): 1 <= 2, advance
    assert_eq!(s.step(&mut a), SortResult::Progress);
    assert_eq!((s.i, s.j), (3, 3));

    // step 5: the outer cursor has passed the end
    assert_eq!(s.step(&mut a), SortResult::Done);
    assert_eq!(a, vec![1, 2, 3]);
}

#[test]
fn bubble_scenario_two_elements() {
    let mut a: Vec<usize> = vec![2, 1];
    let mut s = BubbleSort::new();

    // step 1: compare (0, 1): 2 > 1, swap
    assert_eq!(s.step(&mut a), SortResult::Swap(vec![1, 0]));
    assert_eq!(a, vec![1, 2]);
    assert!(s.swapped);
    assert_eq!(s.i, 2);

    // step 2: pass boundary reached with the flag set: reset the pass
    assert_eq!(s.step(&mut a), SortResult::Progress);
    assert_eq!((s.i, s.n), (1, 1));
    assert!(!s.swapped);

    // step 3: the shrunken bound leaves nothing to compare and no swap
    // happened: done
    assert_eq!(s.step(&mut a), SortResult::Done);
    assert_eq!(a, vec![1, 2]);
}

#[test]
fn cocktail_scenario_two_elements() {
    let mut a: Vec<usize> = vec![2, 1];
    let mut s = CocktailShakerSort::new();

    assert_eq!(s.step(&mut a), SortResult::Swap(vec![0, 1]));
    assert_eq!(a, vec![1, 2]);

    // forward pass over: flip to a backward pass, finalizing the top end
    assert_eq!(s.step(&mut a), SortResult::Progress);
    assert_eq!(s.end_pad, 1);

    // backward comparison confirms order
    assert_eq!(s.step(&mut a), SortResult::Progress);

    // backward pass over without a swap: done
    assert_eq!(s.step(&mut a), SortResult::Done);
    assert_eq!(a, vec![1, 2]);
}

#[test]
fn selection_scan_is_not_an_exchange() {
    let mut a: Vec<usize> = vec![3, 1, 2];
    let mut s = SelectionSort::new();

    // scan steps report the cursor for highlighting but exchange nothing
    assert_eq!(s.step(&mut a), SortResult::Swap(vec![2]));
    assert_eq!(a, vec![3, 1, 2]);
    assert_eq!(s.min, 1);

    assert_eq!(s.step(&mut a), SortResult::Swap(vec![3]));
    assert_eq!(a, vec![3, 1, 2]);
    assert_eq!(s.min, 1);

    // the found minimum is exchanged into the prefix: a real swap
    assert_eq!(s.step(&mut a), SortResult::Swap(vec![0, 1]));
    assert_eq!(a, vec![1, 3, 2]);

    assert_eq!(s.step(&mut a), SortResult::Swap(vec![3]));
    assert_eq!(a, vec![1, 3, 2]);
    assert_eq!(s.min, 2);

    assert_eq!(s.step(&mut a), SortResult::Swap(vec![1, 2]));
    assert_eq!(a, vec![1, 2, 3]);

    assert_eq!(s.step(&mut a), SortResult::Done);
}

#[test]
fn quicksort_scenario_three_elements() {
    let mut a: Vec<usize> = vec![3, 1, 2];
    let mut s = QuickSort::new();

    // pivot selection captures the last element
    assert_eq!(s.step(&mut a), SortResult::Progress);
    assert_eq!(s.pivot, Some(2));

    // scan: 3 > 2, cursor advances only
    assert_eq!(s.step(&mut a), SortResult::Progress);
    assert_eq!((s.i, s.j), (0, 1));

    // scan: 1 <= 2, exchanged to the boundary
    assert_eq!(s.step(&mut a), SortResult::Swap(vec![0, 1]));
    assert_eq!(a, vec![1, 3, 2]);
    assert_eq!((s.i, s.j), (1, 2));

    // finalize: pivot moves to its resting place, children created
    assert_eq!(s.step(&mut a), SortResult::Swap(vec![1, 2]));
    assert_eq!(a, vec![1, 2, 3]);
    assert!(s.partitions.is_some());

    // both children cover a single element: done
    assert_eq!(s.step(&mut a), SortResult::Done);
    assert_eq!(a, vec![1, 2, 3]);
}

#[test]
fn quicksort_reports_both_children_swaps() {
    // Once partitioned, one outer step advances both children; when both
    // exchange in the same tick, their reports are concatenated in the
    // outer view's coordinates.
    let mut a: Vec<usize> = vec![3, 1, 2, 7, 5, 6, 4];
    let mut s = QuickSort::new();
    let mut saw_combined = false;
    for _ in 0..200 {
        match s.step(&mut a) {
            SortResult::Done => break,
            SortResult::Swap(ps) => {
                assert!(ps.len() % 2 == 0);
                assert!(ps.iter().all(|p| *p < a.len()));
                if ps.len() >= 4 {
                    saw_combined = true;
                }
            },
            SortResult::Progress => (),
        }
    }
    assert!(saw_combined);
    assert_eq!(a, vec![1, 2, 3, 4, 5, 6, 7]);
}

#[test]
fn base_cases_empty_and_single() {
    let kinds = [
        SortKind::Bogo,
        SortKind::Bubble,
        SortKind::Cocktail,
        SortKind::Insertion,
        SortKind::Quick,
        SortKind::Selection,
    ];
    for kind in kinds {
        let mut empty: Vec<usize> = vec![];
        let mut s = AnySort::new(kind);
        assert_eq!(s.step(&mut empty), SortResult::Done);
        assert_eq!(empty, Vec::<usize>::new());

        let mut single: Vec<usize> = vec![7];
        let mut s = AnySort::new(kind);
        assert_eq!(s.step(&mut single), SortResult::Done);
        assert_eq!(single, vec![7]);
    }
}

#[test]
fn done_is_idempotent() {
    // After Done, further steps of the deterministic variants change nothing
    // and keep reporting Done.
    let kinds = [
        SortKind::Bubble,
        SortKind::Cocktail,
        SortKind::Insertion,
        SortKind::Quick,
        SortKind::Selection,
    ];
    for kind in kinds {
        let mut a: Vec<usize> = vec![4, 2, 5, 1, 3];
        let mut s = AnySort::new(kind);
        loop {
            match s.step(&mut a) {
                SortResult::Done => break,
                _ => (),
            }
        }
        let settled = a.clone();
        for _ in 0..5 {
            assert_eq!(s.step(&mut a), SortResult::Done);
            assert_eq!(a, settled);
        }
    }
}

#[test]
fn bogosort_certifies_relaxed_check_only() {
    // A two-element buffer always passes the adjacency-skipping check, so
    // Bogosort reports Done at once even when the pair is inverted.
    let mut a: Vec<usize> = vec![9, 1];
    let mut s = BogoSort::new();
    assert_eq!(s.step(&mut a), SortResult::Done);
    assert!(sortviz::sort::is_sorted(&a));
    let mut check = a.clone();
    check.sort();
    assert_eq!(check, vec![1, 9]);
}
