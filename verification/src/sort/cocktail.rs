//! Cocktail Shaker Sort as a resumable state machine: passes alternate
//! direction, and each completed pass finalizes one more element at the end
//! it just swept toward, recorded by two pad counters.

use vstd::prelude::*;
use crate::sort::{Sort, SortResult, seq_swapped, sorted};

verus! {

#[derive(Clone, Copy)]
pub enum ShakerDirection {
    Forward,
    Backward,
}

pub struct CocktailShakerSort {
    /// Which way the current pass sweeps.
    pub direction: ShakerDirection,
    /// The compare cursor.
    pub i: usize,
    /// Whether any exchange happened in the current pass.
    pub swapped: bool,
    /// Finalized elements at the start of the view.
    pub start_pad: usize,
    /// Finalized elements at the end of the view.
    pub end_pad: usize,
}

impl CocktailShakerSort {
    /// Where a forward pass starts: one left of the start pad, so the sweep
    /// re-reads the last finalized minimum before entering the active range.
    pub open spec fn lo_bound(self) -> int {
        if self.start_pad > 0 {
            self.start_pad - 1
        } else {
            0
        }
    }

    /// Well-formedness: both pads hold finalized, dominating (resp.
    /// dominated) sorted elements; the cursor stays in its sweep range; the
    /// swept part of a swap-free pass is sorted; and during a forward
    /// (backward) sweep the cursor element is the largest (smallest) seen.
    pub open spec fn wf(self, s: Seq<usize>) -> bool {
        let len = s.len() as int;
        let i = self.i as int;
        let sp = self.start_pad as int;
        let ep = self.end_pad as int;
        &&& sp + ep <= len
        &&& forall|x: int, y: int| 0 <= x <= y < len && x < sp ==> s[x] <= s[y]
        &&& forall|x: int, y: int| 0 <= x <= y < len && len - ep <= y ==> s[x] <= s[y]
        &&& match self.direction {
            ShakerDirection::Forward => {
                &&& self.lo_bound() <= i
                &&& (i <= len - 1 - ep || i == self.lo_bound())
                &&& (self.swapped ==> self.lo_bound() < i && i <= len - 1 - ep)
                &&& forall|k: int|
                    self.lo_bound() <= k < i && i < len ==> #[trigger] s[k] <= s[i]
                &&& (!self.swapped ==> forall|x: int, y: int|
                    self.lo_bound() <= x <= y <= i && y < len ==> s[x] <= s[y])
            },
            ShakerDirection::Backward => {
                &&& 1 <= ep
                &&& sp <= i <= len - ep
                &&& (self.swapped ==> sp <= i && i < len - ep)
                &&& forall|k: int| i < k <= len - ep ==> s[i] <= #[trigger] s[k]
                &&& (!self.swapped ==> forall|x: int, y: int|
                    i <= x <= y <= len - ep ==> s[x] <= s[y])
            },
        }
    }

    /// The terminal state: the current pass is over and swapped nothing.
    pub open spec fn is_done(self, s: Seq<usize>) -> bool {
        let len = s.len() as int;
        !self.swapped && match self.direction {
            ShakerDirection::Forward => self.i as int >= len - 1 - self.end_pad,
            ShakerDirection::Backward => self.i <= self.start_pad,
        }
    }

    /// Comparisons left in the current pass.
    pub open spec fn pass_rem(self, len: int) -> int {
        match self.direction {
            ShakerDirection::Forward => if self.i as int <= len - 1 - self.end_pad {
                len - 1 - self.end_pad - self.i
            } else {
                0
            },
            ShakerDirection::Backward => self.i - self.start_pad,
        }
    }

    /// An upper bound on the steps still needed, strictly decreasing on
    /// every step that does not report `Done`.
    pub open spec fn measure(self, len: int) -> int {
        (len - self.start_pad - self.end_pad) * (len + 2) + self.pass_rem(len) + 1
    }

    pub fn new() -> (r: CocktailShakerSort)
        ensures
            r == (CocktailShakerSort {
                direction: ShakerDirection::Forward,
                i: 0usize,
                swapped: false,
                start_pad: 0usize,
                end_pad: 0usize,
            }),
            forall|s: Seq<usize>| r.wf(s),
    {
        CocktailShakerSort {
            direction: ShakerDirection::Forward,
            i: 0,
            swapped: false,
            start_pad: 0,
            end_pad: 0,
        }
    }

    /// One forward comparison at `(i, i + 1)`, exchanging on an inversion.
    fn forward_pass(&mut self, a: &mut Vec<usize>) -> (r: SortResult)
        requires
            old(self).i + 1 < old(a).len(),
        ensures
            if old(a)@[old(self).i as int] > old(a)@[old(self).i + 1] {
                &&& final(a)@ == seq_swapped(old(a)@, old(self).i as int, old(self).i + 1)
                &&& final(a)@.to_multiset() == old(a)@.to_multiset()
                &&& *final(self) == (CocktailShakerSort {
                    swapped: true,
                    i: (old(self).i + 1) as usize,
                    ..*old(self)
                })
                &&& (r matches SortResult::Swap(ps) && ps@ == seq![
                    old(self).i,
                    (old(self).i + 1) as usize,
                ])
            } else {
                &&& final(a)@ == old(a)@
                &&& *final(self) == (CocktailShakerSort {
                    i: (old(self).i + 1) as usize,
                    ..*old(self)
                })
                &&& r == SortResult::Progress
            },
    {
        let i = self.i;
        if a[i] > a[i + 1] {
            crate::sort::swap(a, i, i + 1);
            self.swapped = true;
            self.i += 1;
            SortResult::Swap(vec![i, i + 1])
        } else {
            self.i += 1;
            SortResult::Progress
        }
    }

    /// One backward comparison at `(i, i - 1)`, exchanging on an inversion.
    fn backward_pass(&mut self, a: &mut Vec<usize>) -> (r: SortResult)
        requires
            1 <= old(self).i < old(a).len(),
        ensures
            if old(a)@[old(self).i as int] < old(a)@[old(self).i - 1] {
                &&& final(a)@ == seq_swapped(old(a)@, old(self).i as int, old(self).i - 1)
                &&& final(a)@.to_multiset() == old(a)@.to_multiset()
                &&& *final(self) == (CocktailShakerSort {
                    swapped: true,
                    i: (old(self).i - 1) as usize,
                    ..*old(self)
                })
                &&& (r matches SortResult::Swap(ps) && ps@ == seq![
                    old(self).i,
                    (old(self).i - 1) as usize,
                ])
            } else {
                &&& final(a)@ == old(a)@
                &&& *final(self) == (CocktailShakerSort {
                    i: (old(self).i - 1) as usize,
                    ..*old(self)
                })
                &&& r == SortResult::Progress
            },
    {
        let i = self.i;
        if a[i] < a[i - 1] {
            crate::sort::swap(a, i, i - 1);
            self.swapped = true;
            self.i -= 1;
            SortResult::Swap(vec![i, i - 1])
        } else {
            self.i -= 1;
            SortResult::Progress
        }
    }

    /// Flip the sweep direction and grow the pad on the side the finished
    /// pass swept toward.
    fn switch_direction(&mut self)
        requires
            old(self).direction matches ShakerDirection::Forward ==> old(self).end_pad
                < usize::MAX,
            old(self).direction matches ShakerDirection::Backward ==> old(self).start_pad
                < usize::MAX,
        ensures
            *final(self) == match old(self).direction {
                ShakerDirection::Forward => (CocktailShakerSort {
                    direction: ShakerDirection::Backward,
                    swapped: false,
                    end_pad: (old(self).end_pad + 1) as usize,
                    ..*old(self)
                }),
                ShakerDirection::Backward => (CocktailShakerSort {
                    direction: ShakerDirection::Forward,
                    swapped: false,
                    start_pad: (old(self).start_pad + 1) as usize,
                    ..*old(self)
                }),
            },
    {
        self.swapped = false;
        match self.direction {
            ShakerDirection::Forward => {
                self.direction = ShakerDirection::Backward;
                self.end_pad += 1;
            },
            ShakerDirection::Backward => {
                self.direction = ShakerDirection::Forward;
                self.start_pad += 1;
            },
        }
    }
}

/// The run length is quadratically bounded: under the invariant the measure
/// sits between 0 and roughly the square of the view length, and every step
/// that is not `Done` strictly decreases it (see the step contract), so a
/// driver reaches `Done` within that many steps.
pub proof fn lemma_cocktail_measure_bound(c: CocktailShakerSort, s: Seq<usize>)
    requires
        c.wf(s),
    ensures
        0 <= c.measure(s.len() as int) <= (s.len() as int) * (s.len() as int) + 3 * (
        s.len() as int) + 1,
{
    let len = s.len() as int;
    let w = len - c.start_pad - c.end_pad;
    assert(0 <= w <= len);
    assert(0 <= c.pass_rem(len) <= len);
    assert(w * (len + 2) <= len * (len + 2)) by (nonlinear_arith)
        requires
            0 <= w <= len,
    ;
    assert(w * (len + 2) >= 0) by (nonlinear_arith)
        requires
            0 <= w,
            0 <= len,
    ;
    assert(len * (len + 2) == len * len + 2 * len) by (nonlinear_arith);
}

/// The exact transition relation of one Cocktail Shaker step. A step that is
/// not `Done` strictly decreases the measure; `Done` certifies sortedness
/// and changes nothing, so stepping a finished instance stays a no-op.
pub open spec fn cocktail_step_ens(
    pre: CocktailShakerSort,
    post: CocktailShakerSort,
    pre_s: Seq<usize>,
    post_s: Seq<usize>,
    r: SortResult,
) -> bool {
    let len = pre_s.len() as int;
    let i = pre.i as int;
    &&& match pre.direction {
        ShakerDirection::Forward => if i + 1 + pre.end_pad < len {
            if pre_s[i] > pre_s[i + 1] {
                &&& post_s == seq_swapped(pre_s, i, i + 1)
                &&& post == (CocktailShakerSort {
                    swapped: true,
                    i: (pre.i + 1) as usize,
                    ..pre
                })
                &&& (r matches SortResult::Swap(ps) && ps@ == seq![pre.i, (pre.i + 1) as usize])
            } else {
                &&& post_s == pre_s
                &&& post == (CocktailShakerSort { i: (pre.i + 1) as usize, ..pre })
                &&& r == SortResult::Progress
            }
        } else if !pre.swapped {
            &&& post_s == pre_s
            &&& post == pre
            &&& r == SortResult::Done
            &&& sorted(post_s)
        } else {
            &&& post_s == pre_s
            &&& post == (CocktailShakerSort {
                direction: ShakerDirection::Backward,
                swapped: false,
                end_pad: (pre.end_pad + 1) as usize,
                ..pre
            })
            &&& r == SortResult::Progress
        },
        ShakerDirection::Backward => if i > pre.start_pad {
            if pre_s[i] < pre_s[i - 1] {
                &&& post_s == seq_swapped(pre_s, i, i - 1)
                &&& post == (CocktailShakerSort {
                    swapped: true,
                    i: (pre.i - 1) as usize,
                    ..pre
                })
                &&& (r matches SortResult::Swap(ps) && ps@ == seq![pre.i, (pre.i - 1) as usize])
            } else {
                &&& post_s == pre_s
                &&& post == (CocktailShakerSort { i: (pre.i - 1) as usize, ..pre })
                &&& r == SortResult::Progress
            }
        } else if !pre.swapped {
            &&& post_s == pre_s
            &&& post == pre
            &&& r == SortResult::Done
            &&& sorted(post_s)
        } else {
            &&& post_s == pre_s
            &&& post == (CocktailShakerSort {
                direction: ShakerDirection::Forward,
                swapped: false,
                start_pad: (pre.start_pad + 1) as usize,
                ..pre
            })
            &&& r == SortResult::Progress
        },
    }
    &&& (!(r matches SortResult::Done) ==> post.measure(post_s.len() as int) < pre.measure(len))
}

impl Sort for CocktailShakerSort {
    open spec fn inv(&self, s: Seq<usize>) -> bool {
        self.wf(s)
    }

    open spec fn step_ens(
        &self,
        pre: Self,
        pre_s: Seq<usize>,
        post_s: Seq<usize>,
        r: SortResult,
    ) -> bool {
        cocktail_step_ens(pre, *self, pre_s, post_s, r)
    }

    fn step(&mut self, a: &mut Vec<usize>) -> (r: SortResult) {
        let ghost pre = *self;
        let ghost len = a@.len() as int;
        let n = a.len();

        match self.direction {
            ShakerDirection::Forward => {
                if self.end_pad < n && self.i < n - self.end_pad - 1 {
                    self.forward_pass(a)
                } else if !self.swapped {
                    proof {
                        assert(sorted(a@));
                    }
                    SortResult::Done
                } else {
                    self.switch_direction();
                    proof {
                        let w = len - pre.start_pad - pre.end_pad;
                        assert((w - 1) * (len + 2) + (w - 1) + 1 < w * (len + 2) + 1)
                            by (nonlinear_arith)
                            requires
                                w <= len + 2,
                        ;
                        assert(self.wf(a@));
                        assert(self.measure(len) < pre.measure(len));
                    }
                    SortResult::Progress
                }
            },
            ShakerDirection::Backward => {
                if self.i > self.start_pad {
                    self.backward_pass(a)
                } else if !self.swapped {
                    proof {
                        assert(sorted(a@));
                    }
                    SortResult::Done
                } else {
                    self.switch_direction();
                    proof {
                        let w = len - pre.start_pad - pre.end_pad;
                        assert((w - 1) * (len + 2) + (w - 1) + 1 < w * (len + 2) + 1)
                            by (nonlinear_arith)
                            requires
                                w <= len + 2,
                        ;
                        assert(self.wf(a@));
                        assert(self.measure(len) < pre.measure(len));
                    }
                    SortResult::Progress
                }
            },
        }
    }
}

} // verus!
