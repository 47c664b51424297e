//! The application state machine: menu navigation, starting a run, ticking
//! it to completion, and leaving it.

use sortviz::app::{App, AppScreen, KeyInput};
use sortviz::sort::is_sorted;
use sortviz::ARRAY_LEN;

#[test]
fn app_new_starts_on_menu() {
    let app = App::new();
    assert_eq!(app.current_screen, AppScreen::Menu);
    assert_eq!(app.selected, 0);
    assert!(app.sort.is_none());
    assert!(app.swapped.is_empty());
    assert_eq!(app.data.len(), ARRAY_LEN);
    for (k, v) in app.data.iter().enumerate() {
        assert_eq!(*v, k + 1);
    }
    let names: Vec<&str> = app.algorithms.iter().map(|a| a.name).collect();
    assert_eq!(
        names,
        vec![
            "Bogosort",
            "Bubble sort",
            "Cocktail shaker sort",
            "Insertion sort",
            "Quicksort",
            "Selection sort",
        ]
    );
}

#[test]
fn menu_selection_wraps_around() {
    let mut app = App::new();
    assert!(!app.handle_key(KeyInput::Up));
    assert_eq!(app.selected, 5);
    assert!(!app.handle_key(KeyInput::Down));
    assert_eq!(app.selected, 0);
    assert!(!app.handle_key(KeyInput::Down));
    assert_eq!(app.selected, 1);
    assert!(!app.handle_key(KeyInput::Other));
    assert_eq!(app.selected, 1);
}

#[test]
fn esc_quits_menu_and_leaves_run() {
    let mut app = App::new();
    assert!(app.handle_key(KeyInput::Esc));

    let mut app = App::new();
    assert!(!app.handle_key(KeyInput::Enter));
    assert_eq!(app.current_screen, AppScreen::Sort);
    assert!(app.sort.is_some());
    assert!(!app.handle_key(KeyInput::Esc));
    assert_eq!(app.current_screen, AppScreen::Menu);
}

#[test]
fn enter_shuffles_but_keeps_elements() {
    let mut app = App::new();
    app.handle_key(KeyInput::Down);
    app.handle_key(KeyInput::Enter);
    let mut check = app.data.clone();
    check.sort();
    let expected: Vec<usize> = (1..=ARRAY_LEN).collect();
    assert_eq!(check, expected);
}

#[test]
fn ticking_a_run_reaches_a_sorted_buffer() {
    let mut app = App::new();
    // select Bubble sort (one below Bogosort) and start the run
    app.handle_key(KeyInput::Down);
    app.handle_key(KeyInput::Enter);
    let mut steps = 0usize;
    while app.sort.is_some() {
        app.on_tick();
        steps += 1;
        assert!(steps <= ARRAY_LEN * ARRAY_LEN + 3 * ARRAY_LEN + 2);
    }
    assert!(is_sorted(&app.data));
    for i in 0..app.data.len() - 1 {
        assert!(app.data[i] <= app.data[i + 1]);
    }
    assert!(app.swapped.is_empty());
}

#[test]
fn tick_on_menu_changes_nothing() {
    let mut app = App::new();
    let before = app.data.clone();
    app.on_tick();
    assert_eq!(app.data, before);
    assert_eq!(app.current_screen, AppScreen::Menu);
    assert!(app.sort.is_none());
}
