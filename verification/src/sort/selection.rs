//! Selection Sort as a resumable state machine: each step either advances
//! the scan cursor (reporting it as a purely visual signal), or exchanges
//! the found minimum into the sorted prefix.

use vstd::prelude::*;
use crate::sort::{Sort, SortResult, seq_swapped, sorted};

verus! {

pub struct SelectionSort {
    /// Boundary of the sorted prefix.
    pub i: usize,
    /// The scan cursor.
    pub j: usize,
    /// Index of the smallest element found in `[i, j)` so far.
    pub min: usize,
}

impl SelectionSort {
    /// Well-formedness: the prefix `[0, i)` is sorted and dominated by the
    /// rest, and `min` indexes the smallest element scanned this pass.
    pub open spec fn wf(self, s: Seq<usize>) -> bool {
        let len = s.len() as int;
        let i = self.i as int;
        let j = self.j as int;
        let min = self.min as int;
        &&& i <= min < j
        &&& if len >= 1 {
            i < len && j <= len
        } else {
            i == 0 && j == 1 && min == 0
        }
        &&& forall|x: int, y: int| 0 <= x <= y < i ==> s[x] <= s[y]
        &&& forall|x: int, y: int| 0 <= x < i <= y < len ==> s[x] <= s[y]
        &&& forall|k: int| i <= k < j && k < len ==> s[min] <= #[trigger] s[k]
    }

    /// The terminal state: at most one unsorted element remains.
    pub open spec fn is_done(self, s: Seq<usize>) -> bool {
        self.i + 1 >= s.len()
    }

    /// An upper bound on the steps still needed, strictly decreasing on
    /// every step that does not report `Done`.
    pub open spec fn measure(self, len: int) -> int {
        if len == 0 {
            0
        } else {
            (len - self.i) * (len + 2) + (len - self.j)
        }
    }

    pub fn new() -> (r: SelectionSort)
        ensures
            r == (SelectionSort { i: 0usize, j: 1usize, min: 0usize }),
            forall|s: Seq<usize>| r.wf(s),
    {
        SelectionSort { i: 0, j: 1, min: 0 }
    }

    /// Compare the scanned element against the current minimum, advance the
    /// scan, and report the scan position so the driver can animate it.
    fn check(&mut self, a: &mut Vec<usize>) -> (r: SortResult)
        requires
            old(self).j < old(a).len(),
            old(self).min < old(a).len(),
        ensures
            final(a)@ == old(a)@,
            *final(self) == (SelectionSort {
                i: old(self).i,
                j: (old(self).j + 1) as usize,
                min: if old(a)@[old(self).j as int] < old(a)@[old(self).min as int] {
                    old(self).j
                } else {
                    old(self).min
                },
            }),
            (r matches SortResult::Swap(ps) && ps@ == seq![(old(self).j + 1) as usize]),
    {
        if a[self.j] < a[self.min] {
            self.min = self.j;
        }
        self.j += 1;
        SortResult::Swap(vec![self.j])
    }

    /// Open the next pass: the prefix has grown by one.
    fn next_pass(&mut self)
        requires
            old(self).i + 2 <= usize::MAX,
        ensures
            *final(self) == (SelectionSort {
                i: (old(self).i + 1) as usize,
                j: (old(self).i + 2) as usize,
                min: (old(self).i + 1) as usize,
            }),
    {
        self.i += 1;
        self.j = self.i + 1;
        self.min = self.i;
    }

    /// Exchange the found minimum into position `i` and open the next pass.
    fn swap_min(&mut self, a: &mut Vec<usize>) -> (r: SortResult)
        requires
            old(self).i < old(a).len(),
            old(self).min < old(a).len(),
            old(self).i + 2 <= usize::MAX,
        ensures
            final(a)@ == seq_swapped(old(a)@, old(self).i as int, old(self).min as int),
            final(a)@.to_multiset() == old(a)@.to_multiset(),
            *final(self) == (SelectionSort {
                i: (old(self).i + 1) as usize,
                j: (old(self).i + 2) as usize,
                min: (old(self).i + 1) as usize,
            }),
            (r matches SortResult::Swap(ps) && ps@ == seq![old(self).i, old(self).min]),
    {
        let i = self.i;
        let min = self.min;
        crate::sort::swap(a, i, min);
        self.next_pass();
        SortResult::Swap(vec![i, min])
    }
}

/// The run length is quadratically bounded: under the invariant the measure
/// sits between 0 and roughly the square of the view length, and every step
/// that is not `Done` strictly decreases it (see the step contract), so a
/// driver reaches `Done` within that many steps.
pub proof fn lemma_selection_measure_bound(m: SelectionSort, s: Seq<usize>)
    requires
        m.wf(s),
    ensures
        0 <= m.measure(s.len() as int) <= (s.len() as int) * (s.len() as int) + 3 * (
        s.len() as int),
{
    let len = s.len() as int;
    let i = m.i as int;
    let j = m.j as int;
    if len >= 1 {
        assert(1 <= len - i <= len);
        assert((len - i) * (len + 2) <= len * (len + 2)) by (nonlinear_arith)
            requires
                0 <= len - i <= len,
        ;
        assert((len - i) * (len + 2) >= 0) by (nonlinear_arith)
            requires
                0 <= len - i,
                0 <= len,
        ;
        assert(len * (len + 2) == len * len + 2 * len) by (nonlinear_arith);
    }
}

/// The exact transition relation of one Selection Sort step. The scan signal
/// is a `Swap` that exchanges nothing (the buffer is unchanged); only the
/// minimum placement is a true exchange. A step that is not `Done` strictly
/// decreases the measure; `Done` certifies sortedness and changes nothing.
pub open spec fn selection_step_ens(
    pre: SelectionSort,
    post: SelectionSort,
    pre_s: Seq<usize>,
    post_s: Seq<usize>,
    r: SortResult,
) -> bool {
    let len = pre_s.len() as int;
    let i = pre.i as int;
    let j = pre.j as int;
    let min = pre.min as int;
    &&& if i + 1 < len {
        if j < len {
            &&& post_s == pre_s
            &&& post == (SelectionSort {
                i: pre.i,
                j: (pre.j + 1) as usize,
                min: if pre_s[j] < pre_s[min] {
                    pre.j
                } else {
                    pre.min
                },
            })
            &&& (r matches SortResult::Swap(ps) && ps@ == seq![(pre.j + 1) as usize])
        } else if min != i {
            &&& post_s == seq_swapped(pre_s, i, min)
            &&& post == (SelectionSort {
                i: (pre.i + 1) as usize,
                j: (pre.i + 2) as usize,
                min: (pre.i + 1) as usize,
            })
            &&& (r matches SortResult::Swap(ps) && ps@ == seq![pre.i, pre.min])
        } else {
            &&& post_s == pre_s
            &&& post == (SelectionSort {
                i: (pre.i + 1) as usize,
                j: (pre.i + 2) as usize,
                min: (pre.i + 1) as usize,
            })
            &&& r == SortResult::Progress
        }
    } else {
        &&& post_s == pre_s
        &&& post == pre
        &&& r == SortResult::Done
        &&& sorted(post_s)
    }
    &&& (!(r matches SortResult::Done) ==> post.measure(post_s.len() as int) < pre.measure(len))
}

impl Sort for SelectionSort {
    open spec fn inv(&self, s: Seq<usize>) -> bool {
        self.wf(s)
    }

    open spec fn step_ens(
        &self,
        pre: Self,
        pre_s: Seq<usize>,
        post_s: Seq<usize>,
        r: SortResult,
    ) -> bool {
        selection_step_ens(pre, *self, pre_s, post_s, r)
    }

    fn step(&mut self, a: &mut Vec<usize>) -> (r: SortResult) {
        let ghost pre = *self;
        let ghost len = a@.len() as int;

        if self.i + 1 < a.len() {
            if self.j < a.len() {
                self.check(a)
            } else if self.min != self.i {
                let r = self.swap_min(a);
                proof {
                    let i = pre.i as int;
                    assert((len - i - 1) * (len + 2) + (len - i - 2) < (len - i) * (len + 2))
                        by (nonlinear_arith)
                        requires
                            0 <= i,
                            i + 1 < len,
                    ;
                }
                r
            } else {
                self.next_pass();
                proof {
                    let i = pre.i as int;
                    assert((len - i - 1) * (len + 2) + (len - i - 2) < (len - i) * (len + 2))
                        by (nonlinear_arith)
                        requires
                            0 <= i,
                            i + 1 < len,
                    ;
                }
                SortResult::Progress
            }
        } else {
            SortResult::Done
        }
    }
}

} // verus!
