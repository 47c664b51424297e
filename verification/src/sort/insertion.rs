//! Insertion Sort as a resumable state machine: each step either shifts the
//! element in transit one place down, or certifies it placed and advances to
//! the next element.

use vstd::prelude::*;
use crate::sort::{Sort, SortResult, seq_swapped, sorted};

verus! {

pub struct InsertionSort {
    /// The outer cursor: elements left of `i` are already processed.
    pub i: usize,
    /// The inner cursor: position of the element currently being shifted.
    pub j: usize,
}

impl InsertionSort {
    /// Well-formedness: the processed region is sorted except for the element
    /// in transit at `j`, and everything the transit element has been shifted
    /// past is at least as large as it.
    pub open spec fn wf(self, s: Seq<usize>) -> bool {
        let len = s.len() as int;
        let i = self.i as int;
        let j = self.j as int;
        &&& 1 <= i
        &&& j <= i
        &&& if len >= 1 {
            i <= len
        } else {
            i == 1
        }
        &&& (i >= len ==> j == i)
        &&& forall|x: int, y: int|
            0 <= x <= y <= i && y < len && x != j && y != j ==> s[x] <= s[y]
        &&& forall|y: int| j < y <= i && y < len ==> s[j] <= #[trigger] s[y]
    }

    /// The terminal state: every element has been processed.
    pub open spec fn is_done(self, s: Seq<usize>) -> bool {
        self.i as int >= s.len()
    }

    /// An upper bound on the steps still needed, strictly decreasing on
    /// every step that does not report `Done`.
    pub open spec fn measure(self, len: int) -> int {
        (len - self.i) * (len + 1) + self.j
    }

    pub fn new() -> (r: InsertionSort)
        ensures
            r == (InsertionSort { i: 1usize, j: 1usize }),
            forall|s: Seq<usize>| r.wf(s),
    {
        InsertionSort { i: 1, j: 1 }
    }
}

/// The run length is quadratically bounded: under the invariant the measure
/// sits between 0 and roughly the square of the view length, and every step
/// that is not `Done` strictly decreases it (see the step contract), so a
/// driver reaches `Done` within that many steps.
pub proof fn lemma_insertion_measure_bound(m: InsertionSort, s: Seq<usize>)
    requires
        m.wf(s),
    ensures
        0 <= m.measure(s.len() as int) <= (s.len() as int) * (s.len() as int) + 2 * (
        s.len() as int),
{
    let len = s.len() as int;
    let i = m.i as int;
    let j = m.j as int;
    if len == 0 {
        assert(m.measure(len) == 0);
    } else {
        assert(0 <= len - i <= len - 1);
        assert((len - i) * (len + 1) <= (len - 1) * (len + 1)) by (nonlinear_arith)
            requires
                0 <= len - i <= len - 1,
        ;
        assert((len - 1) * (len + 1) == len * len - 1) by (nonlinear_arith);
        assert((len - i) * (len + 1) >= 0) by (nonlinear_arith)
            requires
                0 <= len - i,
                0 <= len,
        ;
    }
}

/// The exact transition relation of one Insertion Sort step. A step that is
/// not `Done` strictly decreases the measure; `Done` certifies sortedness
/// and changes nothing, so stepping a finished instance stays a no-op.
pub open spec fn insertion_step_ens(
    pre: InsertionSort,
    post: InsertionSort,
    pre_s: Seq<usize>,
    post_s: Seq<usize>,
    r: SortResult,
) -> bool {
    let len = pre_s.len() as int;
    let i = pre.i as int;
    let j = pre.j as int;
    &&& if i < len {
        if j > 0 && pre_s[j - 1] > pre_s[j] {
            &&& post_s == seq_swapped(pre_s, j, j - 1)
            &&& post == (InsertionSort { i: pre.i, j: (pre.j - 1) as usize })
            &&& (r matches SortResult::Swap(ps) && ps@ == seq![pre.j, (pre.j - 1) as usize])
        } else {
            &&& post_s == pre_s
            &&& post == (InsertionSort { i: (pre.i + 1) as usize, j: (pre.i + 1) as usize })
            &&& r == SortResult::Progress
        }
    } else {
        &&& post_s == pre_s
        &&& post == pre
        &&& r == SortResult::Done
        &&& sorted(post_s)
    }
    &&& (!(r matches SortResult::Done) ==> post.measure(post_s.len() as int) < pre.measure(len))
}

impl Sort for InsertionSort {
    open spec fn inv(&self, s: Seq<usize>) -> bool {
        self.wf(s)
    }

    open spec fn step_ens(
        &self,
        pre: Self,
        pre_s: Seq<usize>,
        post_s: Seq<usize>,
        r: SortResult,
    ) -> bool {
        insertion_step_ens(pre, *self, pre_s, post_s, r)
    }

    fn step(&mut self, a: &mut Vec<usize>) -> (r: SortResult) {
        let ghost pre = *self;
        let ghost len = a@.len() as int;

        if self.i < a.len() {
            if self.j > 0 && a[self.j - 1] > a[self.j] {
                let j = self.j;
                crate::sort::swap(a, j, j - 1);
                self.j -= 1;
                SortResult::Swap(vec![j, j - 1])
            } else {
                self.i += 1;
                self.j = self.i;
                proof {
                    let i = pre.i as int;
                    let j = pre.j as int;
                    assert((len - i - 1) * (len + 1) + i + 1 < (len - i) * (len + 1) + j)
                        by (nonlinear_arith)
                        requires
                            0 <= j,
                            i < len,
                    ;
                }
                SortResult::Progress
            }
        } else {
            SortResult::Done
        }
    }
}

} // verus!
