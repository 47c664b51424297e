//! The application state behind the menu and the animation: which screen is
//! shown, the registry of selectable algorithms, the shared buffer, and the
//! currently running algorithm instance. The surrounding terminal loop only
//! renders and feeds key presses and ticks into the two handlers here.

use vstd::prelude::*;
use crate::sort::{
    AnySort, SortKind, SortResult, loosely_sorted, shuffle, sorted, Sort,
};

verus! {

#[derive(Debug, PartialEq, Eq, Structural)]
pub enum AppScreen {
    Menu,
    Sort,
}

/// The keys the app reacts to; everything else maps to `Other`.
#[derive(Clone, Copy)]
pub enum KeyInput {
    Enter,
    Esc,
    Up,
    Down,
    Other,
}

/// One entry of the selection menu: a display name and which algorithm it
/// creates. The registry is built once at startup and never changes.
pub struct Algorithm {
    pub name: &'static str,
    pub kind: SortKind,
}

pub struct App {
    pub data: Vec<usize>,
    pub current_screen: AppScreen,
    pub algorithms: Vec<Algorithm>,
    pub selected: usize,
    pub sort: Option<AnySort>,
    pub swapped: Vec<usize>,
}

/// What a finished run certifies of the buffer: full sortedness, except for
/// Bogosort, whose relaxed check is all it ever establishes.
pub open spec fn certifies(m: AnySort, s: Seq<usize>) -> bool {
    match m {
        AnySort::Bogo(_) => loosely_sorted(s),
        _ => sorted(s),
    }
}

impl App {
    /// Well-formedness: the menu selection is in range and a running
    /// algorithm's invariant holds of the buffer it will step.
    pub open spec fn wf(self) -> bool {
        &&& self.algorithms@.len() >= 1
        &&& (self.selected as int) < self.algorithms@.len()
        &&& (self.sort matches Some(m) ==> m.inv(self.data@))
    }

    pub fn new() -> (r: App)
        ensures
            r.wf(),
            r.data@.len() == crate::ARRAY_LEN,
            forall|k: int| 0 <= k < r.data@.len() ==> r.data@[k] == k + 1,
            r.current_screen == AppScreen::Menu,
            r.selected == 0,
            r.sort matches None,
            r.swapped@ == Seq::<usize>::empty(),
            r.algorithms@.len() == 6,
            r.algorithms@[0].kind == SortKind::Bogo,
            r.algorithms@[1].kind == SortKind::Bubble,
            r.algorithms@[2].kind == SortKind::Cocktail,
            r.algorithms@[3].kind == SortKind::Insertion,
            r.algorithms@[4].kind == SortKind::Quick,
            r.algorithms@[5].kind == SortKind::Selection,
            r.algorithms@[0].name@ == "Bogosort"@,
            r.algorithms@[1].name@ == "Bubble sort"@,
            r.algorithms@[2].name@ == "Cocktail shaker sort"@,
            r.algorithms@[3].name@ == "Insertion sort"@,
            r.algorithms@[4].name@ == "Quicksort"@,
            r.algorithms@[5].name@ == "Selection sort"@,
    {
        let mut algorithms: Vec<Algorithm> = Vec::new();
        algorithms.push(Algorithm { name: "Bogosort", kind: SortKind::Bogo });
        algorithms.push(Algorithm { name: "Bubble sort", kind: SortKind::Bubble });
        algorithms.push(Algorithm { name: "Cocktail shaker sort", kind: SortKind::Cocktail });
        algorithms.push(Algorithm { name: "Insertion sort", kind: SortKind::Insertion });
        algorithms.push(Algorithm { name: "Quicksort", kind: SortKind::Quick });
        algorithms.push(Algorithm { name: "Selection sort", kind: SortKind::Selection });

        let mut data: Vec<usize> = Vec::new();
        let mut i: usize = 0;
        while i < crate::ARRAY_LEN
            invariant
                data@.len() == i,
                i <= crate::ARRAY_LEN,
                forall|k: int| 0 <= k < i ==> data@[k] == k + 1,
            decreases crate::ARRAY_LEN - i,
        {
            data.push(i + 1);
            i += 1;
        }

        App {
            data,
            current_screen: AppScreen::Menu,
            algorithms,
            selected: 0,
            sort: None,
            swapped: Vec::new(),
        }
    }

    /// React to one key press; returns whether the application should quit.
    /// On the menu, the arrows move the selection with wrap-around, `Enter`
    /// creates the selected algorithm over a freshly shuffled buffer and
    /// switches to the animation, `Esc` quits. During a run, `Esc` returns
    /// to the menu (discarding nothing; the run resumes if re-entered).
    pub fn handle_key(&mut self, key: KeyInput) -> (quit: bool)
        requires
            old(self).wf(),
        ensures
            final(self).wf(),
            final(self).data@.to_multiset() == old(self).data@.to_multiset(),
            app_key_ens(*old(self), *final(self), key, quit),
    {
        match self.current_screen {
            AppScreen::Menu => match key {
                KeyInput::Enter => {
                    let kind = self.algorithms[self.selected].kind;
                    self.sort = Some(AnySort::new(kind));
                    shuffle(&mut self.data);
                    self.current_screen = AppScreen::Sort;
                    false
                },
                KeyInput::Esc => true,
                KeyInput::Up => {
                    if self.selected == 0 {
                        self.selected = self.algorithms.len() - 1;
                    } else {
                        self.selected -= 1;
                    }
                    false
                },
                KeyInput::Down => {
                    if self.selected == self.algorithms.len() - 1 {
                        self.selected = 0;
                    } else {
                        self.selected += 1;
                    }
                    false
                },
                KeyInput::Other => false,
            },
            AppScreen::Sort => match key {
                KeyInput::Esc => {
                    self.current_screen = AppScreen::Menu;
                    false
                },
                _ => false,
            },
        }
    }

    /// One animation tick: while on the sort screen with a live instance,
    /// advance it one step against the buffer, record the reported positions
    /// for highlighting, and discard the instance once it reports done —
    /// which certifies the buffer ordered (relaxed for Bogosort).
    pub fn on_tick(&mut self)
        requires
            old(self).wf(),
        ensures
            final(self).wf(),
            final(self).data@.len() == old(self).data@.len(),
            final(self).data@.to_multiset() == old(self).data@.to_multiset(),
            old(self).current_screen == AppScreen::Menu ==> *final(self) == *old(self),
            old(self).current_screen == AppScreen::Sort && (old(self).sort matches None)
                ==> *final(self) == *old(self),
            old(self).current_screen == AppScreen::Sort ==> (old(self).sort matches Some(m)
                ==> {
                &&& final(self).current_screen == AppScreen::Sort
                &&& final(self).algorithms == old(self).algorithms
                &&& final(self).selected == old(self).selected
                &&& (final(self).sort matches None ==> certifies(m, final(self).data@)
                    && final(self).swapped@ == Seq::<usize>::empty())
                &&& (final(self).sort matches Some(m2) ==> m2.inv(final(self).data@))
                &&& (exists|m2: AnySort, r: SortResult|
                    {
                        &&& #[trigger] m2.step_ens(m, old(self).data@, final(self).data@, r)
                        &&& (r == SortResult::Done ==> (final(self).sort matches None)
                            && final(self).swapped@ == Seq::<usize>::empty())
                        &&& (r matches SortResult::Swap(v) ==> final(self).sort == Some(m2)
                            && final(self).swapped@ == v@)
                        &&& (r == SortResult::Progress ==> final(self).sort == Some(m2)
                            && final(self).swapped@ == Seq::<usize>::empty())
                    })
            }),
    {
        let ghost pre = *self;
        match self.current_screen {
            AppScreen::Sort => {
                match &mut self.sort {
                    Some(s) => {
                        let r = s.step(&mut self.data);
                        let ghost m2 = *s;
                        let ghost r0 = r;
                        match r {
                            SortResult::Done => {
                                self.sort = None;
                                self.swapped.clear();
                            },
                            SortResult::Swap(v) => {
                                self.swapped = v;
                            },
                            SortResult::Progress => {
                                self.swapped.clear();
                            },
                        }
                        proof {
                            assert(m2.step_ens(pre.sort.unwrap(), pre.data@, self.data@, r0));
                        }
                    },
                    None => {},
                }
            },
            AppScreen::Menu => {},
        }
    }
}

/// The exact effect of one key press on the application state.
pub open spec fn app_key_ens(pre: App, post: App, key: KeyInput, quit: bool) -> bool {
    match pre.current_screen {
        AppScreen::Menu => match key {
            KeyInput::Enter => {
                &&& !quit
                &&& post.sort == Some(
                    crate::sort::fresh_sort(pre.algorithms@[pre.selected as int].kind),
                )
                &&& post.data@.to_multiset() == pre.data@.to_multiset()
                &&& post == (App {
                    data: post.data,
                    sort: post.sort,
                    current_screen: AppScreen::Sort,
                    ..pre
                })
            },
            KeyInput::Esc => quit && post == pre,
            KeyInput::Up => !quit && post == (App {
                selected: if pre.selected == 0 {
                    (pre.algorithms@.len() - 1) as usize
                } else {
                    (pre.selected - 1) as usize
                },
                ..pre
            }),
            KeyInput::Down => !quit && post == (App {
                selected: if pre.selected as int == pre.algorithms@.len() - 1 {
                    0usize
                } else {
                    (pre.selected + 1) as usize
                },
                ..pre
            }),
            KeyInput::Other => !quit && post == pre,
        },
        AppScreen::Sort => match key {
            KeyInput::Esc => !quit && post == (App { current_screen: AppScreen::Menu, ..pre }),
            _ => !quit && post == pre,
        },
    }
}

} // verus!
