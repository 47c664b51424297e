//! Bubble Sort as a resumable state machine: one comparison (and possibly
//! one exchange) per step, with a shrinking upper bound so that each
//! completed pass finalizes one more trailing element.

use vstd::prelude::*;
use crate::sort::{Sort, SortResult, seq_swapped, sorted};

verus! {

pub struct BubbleSort {
    /// Whether any exchange happened in the current pass.
    pub swapped: bool,
    /// The compare cursor: this step compares positions `i - 1` and `i`.
    pub i: usize,
    /// Completed passes; the last `n` elements are already in place.
    pub n: usize,
}

impl BubbleSort {
    /// Well-formedness of the cursors relative to the buffer: the cursor
    /// stays inside the active range, the element just behind the cursor is
    /// the largest seen this pass, a swap-free pass prefix is sorted, and the
    /// `n` finalized trailing elements are sorted and dominate the rest.
    pub open spec fn wf(self, s: Seq<usize>) -> bool {
        let len = s.len() as int;
        let i = self.i as int;
        let n = self.n as int;
        &&& n == 0 || n < len
        &&& 1 <= i
        &&& if len - n >= 1 { i <= len - n } else { i == 1 }
        &&& (self.swapped ==> len - n >= 2)
        &&& forall|k: int| 0 <= k < i - 1 && i - 1 < len ==> #[trigger] s[k] <= s[i - 1]
        &&& (!self.swapped ==> forall|x: int, y: int| 0 <= x <= y < i && y < len ==> s[x] <= s[y])
        &&& forall|x: int, y: int| 0 <= x < len - n && len - n <= y < len ==> s[x] <= s[y]
        &&& forall|x: int, y: int| len - n <= x <= y < len ==> s[x] <= s[y]
    }

    /// The terminal state: the pass reached the active bound without a swap.
    pub open spec fn is_done(self, s: Seq<usize>) -> bool {
        self.i as int >= s.len() - self.n && !self.swapped
    }

    /// An upper bound on the steps still needed, strictly decreasing on
    /// every step that does not report `Done`.
    pub open spec fn measure(self, len: int) -> int {
        (len - self.n) * (len + 2) + (len - self.n) - self.i + 1
    }

    pub fn new() -> (r: BubbleSort)
        ensures
            r == (BubbleSort { swapped: false, i: 1usize, n: 0usize }),
            forall|s: Seq<usize>| r.wf(s),
    {
        BubbleSort { swapped: false, i: 1, n: 0 }
    }

    fn next_pass(&mut self)
        requires
            old(self).n < usize::MAX,
        ensures
            *final(self) == (BubbleSort {
                swapped: false,
                i: 1usize,
                n: (old(self).n + 1) as usize,
            }),
    {
        self.i = 1;
        self.swapped = false;
        self.n += 1;
    }
}

/// The run length is quadratically bounded: under the invariant the measure
/// sits between 0 and roughly the square of the view length, and every step
/// that is not `Done` strictly decreases it (see the step contract), so a
/// driver reaches `Done` within that many steps.
pub proof fn lemma_bubble_measure_bound(b: BubbleSort, s: Seq<usize>)
    requires
        b.wf(s),
    ensures
        0 <= b.measure(s.len() as int) <= (s.len() as int) * (s.len() as int) + 3 * (
        s.len() as int) + 1,
{
    let len = s.len() as int;
    let n = b.n as int;
    let i = b.i as int;
    assert(0 <= len - n <= len);
    assert((len - n) * (len + 2) <= len * (len + 2)) by (nonlinear_arith)
        requires
            0 <= len - n <= len,
    ;
    assert((len - n) * (len + 2) >= 0) by (nonlinear_arith)
        requires
            0 <= len - n,
            0 <= len,
    ;
    assert(len * (len + 2) == len * len + 2 * len) by (nonlinear_arith);
}

/// The exact transition relation of one Bubble Sort step: which branch runs,
/// how the state and the buffer change, and what is reported. A step that is
/// not `Done` strictly decreases the measure; `Done` certifies sortedness
/// and changes nothing, so stepping a finished instance stays a no-op.
pub open spec fn bubble_step_ens(
    pre: BubbleSort,
    post: BubbleSort,
    pre_s: Seq<usize>,
    post_s: Seq<usize>,
    r: SortResult,
) -> bool {
    let len = pre_s.len() as int;
    let i = pre.i as int;
    &&& if i < len - pre.n {
        if pre_s[i - 1] > pre_s[i] {
            &&& post_s == seq_swapped(pre_s, i, i - 1)
            &&& post == (BubbleSort { swapped: true, i: (pre.i + 1) as usize, n: pre.n })
            &&& (r matches SortResult::Swap(ps) && ps@ == seq![pre.i, (pre.i - 1) as usize])
        } else {
            &&& post_s == pre_s
            &&& post == (BubbleSort { swapped: pre.swapped, i: (pre.i + 1) as usize, n: pre.n })
            &&& r == SortResult::Progress
        }
    } else if !pre.swapped {
        &&& post_s == pre_s
        &&& post == pre
        &&& r == SortResult::Done
        &&& sorted(post_s)
    } else {
        &&& post_s == pre_s
        &&& post == (BubbleSort { swapped: false, i: 1usize, n: (pre.n + 1) as usize })
        &&& r == SortResult::Progress
    }
    &&& (!(r matches SortResult::Done) ==> post.measure(post_s.len() as int) < pre.measure(len))
}

impl Sort for BubbleSort {
    open spec fn inv(&self, s: Seq<usize>) -> bool {
        self.wf(s)
    }

    open spec fn step_ens(
        &self,
        pre: Self,
        pre_s: Seq<usize>,
        post_s: Seq<usize>,
        r: SortResult,
    ) -> bool {
        bubble_step_ens(pre, *self, pre_s, post_s, r)
    }

    fn step(&mut self, a: &mut Vec<usize>) -> (r: SortResult) {
        let ghost pre = *self;
        let ghost len = a@.len() as int;
        let i = self.i;
        let j = self.i - 1;

        if i < a.len() - self.n {
            if a[j] > a[i] {
                crate::sort::swap(a, i, j);
                self.swapped = true;
                self.i += 1;
                SortResult::Swap(vec![i, j])
            } else {
                self.i += 1;
                SortResult::Progress
            }
        } else if !self.swapped {
            SortResult::Done
        } else {
            self.next_pass();
            proof {
                let n = pre.n as int;
                assert((len - n - 1) * (len + 2) + (len - n - 1) < (len - n) * (len + 2) + 1)
                    by (nonlinear_arith)
                    requires
                        0 <= n,
                        len - n >= 2,
                ;
            }
            SortResult::Progress
        }
    }
}

} // verus!
