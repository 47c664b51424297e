//! Bogosort: each step reshuffles the whole view uniformly at random and
//! certifies it done when the relaxed adjacency-skipping check passes.

use vstd::prelude::*;
use crate::sort::{Sort, SortResult, loosely_sorted};

verus! {

pub struct BogoSort {}

impl BogoSort {
    pub fn new() -> (r: BogoSort)
        ensures
            forall|s: Seq<usize>| r.inv(s),
    {
        BogoSort {}
    }
}

/// One Bogosort step rearranges the buffer (the multiset of elements is kept
/// by the trait contract) and reports `Done` exactly when the rearranged
/// buffer passes the relaxed check. Note the check is weaker than full
/// sortedness, and a reshuffle happens even after `Done` was reported.
pub open spec fn bogo_step_ens(
    pre: BogoSort,
    post: BogoSort,
    pre_s: Seq<usize>,
    post_s: Seq<usize>,
    r: SortResult,
) -> bool {
    &&& post == pre
    &&& r == if loosely_sorted(post_s) {
        SortResult::Done
    } else {
        SortResult::Progress
    }
}

impl Sort for BogoSort {
    open spec fn inv(&self, s: Seq<usize>) -> bool {
        true
    }

    open spec fn step_ens(
        &self,
        pre: Self,
        pre_s: Seq<usize>,
        post_s: Seq<usize>,
        r: SortResult,
    ) -> bool {
        bogo_step_ens(pre, *self, pre_s, post_s, r)
    }

    fn step(&mut self, a: &mut Vec<usize>) -> (r: SortResult) {
        crate::sort::shuffle(a);

        if crate::sort::is_sorted(a) {
            SortResult::Done
        } else {
            SortResult::Progress
        }
    }
}

} // verus!
