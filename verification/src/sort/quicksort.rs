//! Quicksort as a resumable state machine. One instance walks through pivot
//! selection, a partition scan (one comparison per step), a finalizing
//! exchange of the pivot into its resting place, and then delegates: each
//! further step advances *both* child partitions by one step each, so the
//! recursion animates simultaneously rather than depth-first.
//!
//! The children are an owned tree: each node owns its two partitions, and a
//! partition owns only a half-open range descriptor into the shared buffer
//! plus the nested machine for that range. The two ranges are disjoint by
//! construction.

use vstd::prelude::*;
use crate::sort::{
    Sort, SortResult, apply_swaps, seq_swapped, shift_swaps, sorted, swap_list_ok,
    lemma_apply_swaps_concat, lemma_apply_swaps_embed, lemma_perm_keeps_lower_bound,
    lemma_perm_keeps_upper_bound, lemma_swap_preserves_multiset, lemma_to_multiset_of_add,
};

verus! {

/// A half-open range `[start, end)` of the parent's view, with the nested
/// machine that sorts it. The bounds are relative to the parent's view.
pub struct Partition {
    pub start: usize,
    pub end: usize,
    pub sort: QuickSort,
}

pub struct QuickSort {
    /// The two child partitions, present once the pivot has been finalized.
    pub partitions: Option<Box<(Partition, Partition)>>,
    /// The captured pivot value, present once pivot selection has run.
    pub pivot: Option<usize>,
    /// Boundary of the elements known to be at most the pivot.
    pub i: usize,
    /// The scan cursor.
    pub j: usize,
}

impl QuickSort {
    /// Well-formedness relative to the machine's own view `s`. Freshly
    /// created machines accept any view; a scanning machine has captured the
    /// last element as pivot and partitioned `[0, j)` around `i`; once
    /// partitioned, the children cover `[0, i)` and `[i + 1, len)` exactly,
    /// the element at `i` separates them, and each child is itself
    /// well-formed on its sub-view.
    pub open spec fn wf(self, s: Seq<usize>) -> bool
        decreases self,
    {
        let len = s.len() as int;
        match self.partitions {
            Some(pair) => {
                let i = self.i as int;
                &&& len >= 2
                &&& 0 <= i < len
                &&& pair.0.start == 0
                &&& pair.0.end == self.i
                &&& pair.1.start as int == i + 1
                &&& pair.1.end as int == len
                &&& forall|k: int| 0 <= k < i ==> #[trigger] s[k] <= s[i]
                &&& forall|k: int| i < k < len ==> s[i] <= #[trigger] s[k]
                &&& pair.0.sort.wf(s.subrange(0, i))
                &&& pair.1.sort.wf(s.subrange(i + 1, len))
            },
            None => match self.pivot {
                Some(pv) => {
                    let i = self.i as int;
                    let j = self.j as int;
                    &&& len >= 2
                    &&& 0 <= i <= j <= len - 1
                    &&& pv == s[len - 1]
                    &&& forall|k: int| 0 <= k < i ==> #[trigger] s[k] <= pv
                    &&& forall|k: int| i <= k < j ==> #[trigger] s[k] > pv
                },
                None => self.i == 0 && self.j == 0,
            },
        }
    }

    /// The terminal state: the view is trivially sorted, or both children
    /// are terminal on their sub-views.
    pub open spec fn is_done(self, s: Seq<usize>) -> bool
        decreases self,
    {
        ||| s.len() <= 1
        ||| match self.partitions {
            Some(pair) => {
                &&& pair.0.sort.is_done(s.subrange(0, self.i as int))
                &&& pair.1.sort.is_done(s.subrange(self.i + 1, s.len() as int))
            },
            None => false,
        }
    }

    /// An upper bound on the steps still needed, strictly decreasing on
    /// every step of a machine that is not yet terminal.
    pub open spec fn measure(self, len: int) -> int
        decreases self,
    {
        if len <= 1 {
            0
        } else {
            match self.partitions {
                Some(pair) => pair.0.sort.measure(self.i as int) + pair.1.sort.measure(
                    len - self.i - 1,
                ),
                None => match self.pivot {
                    Some(_) => (len - 1 - self.j) + 1 + (len - 1) * (len - 1),
                    None => len + 1 + (len - 1) * (len - 1),
                },
            }
        }
    }

    pub fn new() -> (r: QuickSort)
        ensures
            r == (QuickSort { partitions: None, pivot: None, i: 0usize, j: 0usize }),
            forall|s: Seq<usize>| r.wf(s),
    {
        QuickSort { partitions: None, pivot: None, i: 0, j: 0 }
    }
}

impl Partition {
    pub fn new(start: usize, end: usize) -> (r: Partition)
        ensures
            r == (Partition {
                start,
                end,
                sort: (QuickSort { partitions: None, pivot: None, i: 0usize, j: 0usize }),
            }),
            forall|s: Seq<usize>| r.sort.wf(s),
    {
        Partition { start, end, sort: QuickSort::new() }
    }

    /// Step the nested machine against this partition's range of the view
    /// that starts at absolute position `off`.
    pub fn step(&mut self, a: &mut Vec<usize>, off: usize) -> (r: SortResult)
        requires
            off + old(self).start <= usize::MAX,
            off + old(self).start + (old(self).end - old(self).start) <= old(a).len(),
            old(self).start <= old(self).end,
            old(self).sort.wf(
                old(a)@.subrange(off + old(self).start, off + old(self).end),
            ),
        ensures
            final(a)@.len() == old(a)@.len(),
            final(self).start == old(self).start,
            final(self).end == old(self).end,
            forall|k: int|
                0 <= k < old(a)@.len() && !(off + old(self).start <= k < off + old(self).end)
                    ==> final(a)@[k] == old(a)@[k],
            final(self).sort.wf(final(a)@.subrange(off + old(self).start, off + old(self).end)),
            final(a)@.subrange(off + old(self).start, off + old(self).end).to_multiset()
                == old(a)@.subrange(off + old(self).start, off + old(self).end).to_multiset(),
            quick_step_ens(
                old(self).sort,
                final(self).sort,
                old(a)@.subrange(off + old(self).start, off + old(self).end),
                final(a)@.subrange(off + old(self).start, off + old(self).end),
                r,
            ),
    {
        let lo = off + self.start;
        let hi = off + self.start + (self.end - self.start);
        self.sort.step_view(a, lo, hi)
    }
}

/// How the two children's reports of one tick fold into the parent's:
/// `Done` only when both children are done; otherwise all reported swap
/// positions concatenated, the second child's translated by its offset into
/// the parent view, and `Progress` when neither child exchanged.
pub open spec fn combined_report(r1: SortResult, r2: SortResult, r: SortResult, off2: int) -> bool {
    match (r1, r2) {
        (SortResult::Done, SortResult::Done) => r == SortResult::Done,
        (SortResult::Swap(v1), SortResult::Swap(v2)) => (r matches SortResult::Swap(ps) && ps@
            == v1@ + shift_swaps(v2@, off2)),
        (SortResult::Swap(v1), _) => (r matches SortResult::Swap(ps) && ps@ == v1@),
        (_, SortResult::Swap(v2)) => (r matches SortResult::Swap(ps) && ps@ == shift_swaps(
            v2@,
            off2,
        )),
        _ => r == SortResult::Progress,
    }
}

/// The transition contract of one Quicksort step over its own view: `Done`
/// comes exactly when the machine is terminal, a terminal machine never
/// changes anything (stepping after `Done` stays a no-op), `Done` certifies
/// sortedness, a `Progress` step leaves the view unchanged, a `Swap` step
/// performs exactly the reported exchanges, and any non-terminal step
/// strictly decreases the measure. On a view of length at least 2 the step
/// taken is pinned branch by branch: pivot selection captures the last
/// element and changes nothing else; a scan step makes exactly one
/// comparison against the pivot; the finalizing step exchanges the pivot
/// into position `i` and creates exactly the two fresh child partitions;
/// and once partitioned, each child advances by exactly one step of this
/// same relation on its own sub-view, the two reports folded by
/// `combined_report`.
pub open spec fn quick_step_ens(
    pre: QuickSort,
    post: QuickSort,
    pre_s: Seq<usize>,
    post_s: Seq<usize>,
    r: SortResult,
) -> bool
    decreases pre,
{
    let len = pre_s.len() as int;
    &&& (r == SortResult::Done <==> pre.is_done(pre_s))
    &&& (pre.is_done(pre_s) ==> post == pre && post_s == pre_s)
    &&& (r == SortResult::Done ==> sorted(post_s))
    &&& (r == SortResult::Progress ==> post_s == pre_s)
    &&& (r matches SortResult::Swap(ps) ==> swap_list_ok(ps@, len) && post_s == apply_swaps(
        pre_s,
        ps@,
    ))
    &&& (!pre.is_done(pre_s) ==> post.measure(len) < pre.measure(len))
    &&& (len >= 2 ==> match pre.partitions {
        None => match pre.pivot {
            None => {
                &&& post_s == pre_s
                &&& post == (QuickSort { pivot: Some(pre_s[len - 1]), ..pre })
                &&& r == SortResult::Progress
            },
            Some(pv) => if pre.j < len - 1 {
                if pre_s[pre.j as int] <= pv {
                    &&& post_s == seq_swapped(pre_s, pre.i as int, pre.j as int)
                    &&& post == (QuickSort {
                        i: (pre.i + 1) as usize,
                        j: (pre.j + 1) as usize,
                        ..pre
                    })
                    &&& (r matches SortResult::Swap(ps) && ps@ == seq![pre.i, pre.j])
                } else {
                    &&& post_s == pre_s
                    &&& post == (QuickSort { j: (pre.j + 1) as usize, ..pre })
                    &&& r == SortResult::Progress
                }
            } else {
                &&& post_s == seq_swapped(pre_s, pre.i as int, len - 1)
                &&& post.pivot == pre.pivot
                &&& post.i == pre.i
                &&& post.j == pre.j
                &&& (post.partitions matches Some(pair) && pair.0 == (Partition {
                    start: 0usize,
                    end: pre.i,
                    sort: (QuickSort { partitions: None, pivot: None, i: 0usize, j: 0usize }),
                }) && pair.1 == (Partition {
                    start: (pre.i + 1) as usize,
                    end: len as usize,
                    sort: (QuickSort { partitions: None, pivot: None, i: 0usize, j: 0usize }),
                }))
                &&& (r matches SortResult::Swap(ps) && ps@ == seq![pre.i, (len - 1) as usize])
            },
        },
        Some(pair) => {
            &&& post.pivot == pre.pivot
            &&& post.i == pre.i
            &&& post.j == pre.j
            &&& post_s[pre.i as int] == pre_s[pre.i as int]
            &&& (post.partitions matches Some(qair) && qair.0.start == pair.0.start
                && qair.0.end == pair.0.end && qair.1.start == pair.1.start && qair.1.end
                == pair.1.end && (exists|r1: SortResult, r2: SortResult|
                #[trigger] combined_report(r1, r2, r, pre.i + 1) && quick_step_ens(
                    pair.0.sort,
                    qair.0.sort,
                    pre_s.subrange(0, pre.i as int),
                    post_s.subrange(0, pre.i as int),
                    r1,
                ) && quick_step_ens(
                    pair.1.sort,
                    qair.1.sort,
                    pre_s.subrange(pre.i + 1, len),
                    post_s.subrange(pre.i + 1, len),
                    r2,
                )))
        },
    })
}

/// A position lies in a half-open range.
pub open spec fn in_range(k: int, lo: int, hi: int) -> bool {
    lo <= k < hi
}

/// Once the pivot is finalized, the two child ranges never overlap, and
/// their union with the pivot position covers the view exactly once.
pub proof fn lemma_partition_disjointness(q: QuickSort, s: Seq<usize>)
    requires
        q.wf(s),
        q.partitions matches Some(_),
    ensures
        q.partitions matches Some(pair) ==> {
            &&& pair.0.start == 0 && pair.0.end as int == q.i as int
            &&& pair.1.start as int == q.i + 1 && pair.1.end as int == s.len() as int
            &&& forall|k: int|
                #[trigger] in_range(k, pair.0.start as int, pair.0.end as int) ==> !in_range(
                    k,
                    pair.1.start as int,
                    pair.1.end as int,
                ) && k != q.i as int
            &&& forall|k: int|
                #[trigger] in_range(k, pair.1.start as int, pair.1.end as int) ==> k != q.i as int
            &&& forall|k: int|
                0 <= k < s.len() && !in_range(k, pair.0.start as int, pair.0.end as int)
                    && !(#[trigger] in_range(k, pair.1.start as int, pair.1.end as int)) ==> k
                    == q.i as int
        },
{
}

/// The run length is quadratically bounded: under the invariant the measure
/// sits between 0 and the square of the view length, and every step of a
/// machine that is not yet terminal strictly decreases it (see the step
/// contract), so a driver reaches `Done` within that many steps.
pub proof fn lemma_quick_measure_bound(q: QuickSort, s: Seq<usize>)
    requires
        q.wf(s),
    ensures
        0 <= q.measure(s.len() as int) <= (s.len() as int) * (s.len() as int),
    decreases q,
{
    let len = s.len() as int;
    if len <= 1 {
        assert(len * len >= 0) by (nonlinear_arith);
    } else {
        match q.partitions {
            Some(pair) => {
                let i = q.i as int;
                lemma_quick_measure_bound(pair.0.sort, s.subrange(0, i));
                lemma_quick_measure_bound(pair.1.sort, s.subrange(i + 1, len));
                assert(i * i + (len - i - 1) * (len - i - 1) <= len * len) by (nonlinear_arith)
                    requires
                        0 <= i < len,
                ;
            },
            None => {
                let j = q.j as int;
                if q.pivot matches Some(_) {
                    assert(0 <= j <= len - 1);
                    assert((len - 1 - j) + 1 + (len - 1) * (len - 1) <= len * len)
                        by (nonlinear_arith)
                        requires
                            0 <= j <= len - 1,
                            2 <= len,
                    ;
                    assert((len - 1) * (len - 1) >= 0) by (nonlinear_arith);
                } else {
                    assert(len + 1 + (len - 1) * (len - 1) <= len * len) by (nonlinear_arith)
                        requires
                            2 <= len,
                    ;
                    assert((len - 1) * (len - 1) >= 0) by (nonlinear_arith);
                }
            },
        }
    }
}

/// A terminal well-formed machine certifies a sorted view: each child range
/// is sorted by induction and the pivot element separates them.
pub proof fn lemma_quick_done_sorted(q: QuickSort, s: Seq<usize>)
    requires
        q.wf(s),
        q.is_done(s),
    ensures
        sorted(s),
    decreases q,
{
    if s.len() > 1 {
        match q.partitions {
            Some(pair) => {
                let i = q.i as int;
                let len = s.len() as int;
                let left = s.subrange(0, i);
                let right = s.subrange(i + 1, len);
                lemma_quick_done_sorted(pair.0.sort, left);
                lemma_quick_done_sorted(pair.1.sort, right);
                assert forall|x: int, y: int| 0 <= x <= y < len implies s[x] <= s[y] by {
                    if y < i {
                        assert(left[x] <= left[y]);
                    } else if x > i {
                        assert(right[x - i - 1] <= right[y - i - 1]);
                    } else {
                        assert(s[x] <= s[i]);
                        assert(s[i] <= s[y]);
                    }
                }
            },
            None => {},
        }
    }
}

impl QuickSort {
    /// One scan comparison: if the scanned element is at most the pivot it
    /// is exchanged to the boundary, else the cursor only advances.
    fn sort_pivot(&mut self, a: &mut Vec<usize>, lo: usize, hi: usize) -> (r: SortResult)
        requires
            lo <= hi <= old(a).len(),
            old(self).wf(old(a)@.subrange(lo as int, hi as int)),
            old(self).partitions matches None,
            old(self).pivot matches Some(_),
            old(self).j < hi - lo - 1,
        ensures
            final(a)@.len() == old(a)@.len(),
            forall|k: int|
                0 <= k < lo || hi <= k < old(a)@.len() ==> final(a)@[k] == old(a)@[k],
            final(a)@.subrange(lo as int, hi as int).to_multiset() == old(a)@.subrange(
                lo as int,
                hi as int,
            ).to_multiset(),
            ({
                let v = old(a)@.subrange(lo as int, hi as int);
                let v2 = final(a)@.subrange(lo as int, hi as int);
                let i = old(self).i as int;
                let j = old(self).j as int;
                if v[j] <= old(self).pivot.unwrap() {
                    &&& v2 == seq_swapped(v, i, j)
                    &&& *final(self) == (QuickSort {
                        i: (old(self).i + 1) as usize,
                        j: (old(self).j + 1) as usize,
                        ..*old(self)
                    })
                    &&& (r matches SortResult::Swap(ps) && ps@ == seq![old(self).i, old(self).j])
                } else {
                    &&& v2 == v
                    &&& *final(self) == (QuickSort { j: (old(self).j + 1) as usize, ..*old(self) })
                    &&& r == SortResult::Progress
                }
            }),
    {
        let ghost v = a@.subrange(lo as int, hi as int);
        let pivot = match self.pivot {
            Some(p) => p,
            None => 0,
        };
        if a[lo + self.j] <= pivot {
            let i = self.i;
            let j = self.j;
            crate::sort::swap(a, lo + i, lo + j);
            self.i += 1;
            self.j += 1;
            proof {
                assert(a@.subrange(lo as int, hi as int) =~= seq_swapped(v, i as int, j as int));
                lemma_swap_preserves_multiset(v, i as int, j as int);
            }
            SortResult::Swap(vec![i, j])
        } else {
            self.j += 1;
            proof {
                assert(a@.subrange(lo as int, hi as int) =~= v);
            }
            SortResult::Progress
        }
    }

    /// The finalizing exchange: the pivot moves from the last position into
    /// position `i`, and the two child partitions are created.
    fn create_partitions(&mut self, a: &mut Vec<usize>, lo: usize, hi: usize) -> (r: SortResult)
        requires
            lo <= hi <= old(a).len(),
            old(self).wf(old(a)@.subrange(lo as int, hi as int)),
            old(self).partitions matches None,
            old(self).pivot matches Some(_),
            old(self).j as int == hi - lo - 1,
        ensures
            final(a)@.len() == old(a)@.len(),
            forall|k: int|
                0 <= k < lo || hi <= k < old(a)@.len() ==> final(a)@[k] == old(a)@[k],
            final(a)@.subrange(lo as int, hi as int).to_multiset() == old(a)@.subrange(
                lo as int,
                hi as int,
            ).to_multiset(),
            ({
                let v = old(a)@.subrange(lo as int, hi as int);
                let v2 = final(a)@.subrange(lo as int, hi as int);
                let i = old(self).i as int;
                let len = v.len() as int;
                &&& v2 == seq_swapped(v, i, len - 1)
                &&& final(self).pivot == old(self).pivot
                &&& final(self).i == old(self).i
                &&& final(self).j == old(self).j
                &&& (final(self).partitions matches Some(pair) && pair.0 == (Partition {
                    start: 0usize,
                    end: old(self).i,
                    sort: (QuickSort { partitions: None, pivot: None, i: 0usize, j: 0usize }),
                }) && pair.1 == (Partition {
                    start: (old(self).i + 1) as usize,
                    end: (hi - lo) as usize,
                    sort: (QuickSort { partitions: None, pivot: None, i: 0usize, j: 0usize }),
                }))
                &&& (r matches SortResult::Swap(ps) && ps@ == seq![
                    old(self).i,
                    (hi - lo - 1) as usize,
                ])
            }),
    {
        let ghost v = a@.subrange(lo as int, hi as int);
        let i = self.i;
        let j = hi - lo - 1;
        crate::sort::swap(a, lo + i, lo + j);

        self.partitions = Some(Box::new((Partition::new(0, i), Partition::new(i + 1, hi - lo))));

        proof {
            assert(a@.subrange(lo as int, hi as int) =~= seq_swapped(v, i as int, j as int));
            lemma_swap_preserves_multiset(v, i as int, j as int);
        }
        SortResult::Swap(vec![i, j])
    }
}

/// Move a child partition's reported positions into the parent view's
/// coordinate space.
fn translate_positions(v: &mut Vec<usize>, off: usize)
    requires
        forall|k: int| 0 <= k < old(v)@.len() ==> old(v)@[k] + off <= usize::MAX,
    ensures
        final(v)@ == shift_swaps(old(v)@, off as int),
{
    let mut k: usize = 0;
    while k < v.len()
        invariant
            v@.len() == old(v)@.len(),
            forall|t: int| 0 <= t < old(v)@.len() ==> old(v)@[t] + off <= usize::MAX,
            forall|t: int| k <= t < v@.len() ==> v@[t] == old(v)@[t],
            forall|t: int| 0 <= t < k ==> v@[t] == (old(v)@[t] + off) as usize,
        decreases v@.len() - k,
    {
        let x = v[k];
        v[k] = x + off;
        k += 1;
    }
    proof {
        assert(v@ =~= shift_swaps(old(v)@, off as int));
    }
}

impl QuickSort {
    /// Advance both child partitions by one step each against their disjoint
    /// ranges, and fold the two reports into one: `Done` only when both are
    /// done, all reported positions translated into this view's coordinates
    /// and concatenated.
    #[verifier::rlimit(100)]
    #[verifier::spinoff_prover]
    fn sort_partitions(
        a: &mut Vec<usize>,
        lo: usize,
        hi: usize,
        p1: &mut Partition,
        p2: &mut Partition,
    ) -> (r: SortResult)
        requires
            lo <= hi <= old(a).len(),
            old(p1).start == 0,
            (old(p1).end as int) < hi - lo,
            old(p2).start as int == old(p1).end as int + 1,
            old(p2).end as int == hi - lo,
            old(p1).sort.wf(old(a)@.subrange(lo as int, lo + old(p1).end)),
            old(p2).sort.wf(old(a)@.subrange(lo + old(p2).start, hi as int)),
        ensures
            final(a)@.len() == old(a)@.len(),
            forall|k: int|
                0 <= k < lo || hi <= k < old(a)@.len() ==> final(a)@[k] == old(a)@[k],
            *final(p1) == (Partition { sort: final(p1).sort, ..*old(p1) }),
            *final(p2) == (Partition { sort: final(p2).sort, ..*old(p2) }),
            final(a)@[lo + old(p1).end] == old(a)@[lo + old(p1).end],
            final(a)@.subrange(lo as int, lo + old(p1).end).to_multiset() == old(a)@.subrange(
                lo as int,
                lo + old(p1).end,
            ).to_multiset(),
            final(a)@.subrange(lo + old(p2).start, hi as int).to_multiset() == old(a)@.subrange(
                lo + old(p2).start,
                hi as int,
            ).to_multiset(),
            final(p1).sort.wf(final(a)@.subrange(lo as int, lo + old(p1).end)),
            final(p2).sort.wf(final(a)@.subrange(lo + old(p2).start, hi as int)),
            (r == SortResult::Done <==> old(p1).sort.is_done(
                old(a)@.subrange(lo as int, lo + old(p1).end),
            ) && old(p2).sort.is_done(old(a)@.subrange(lo + old(p2).start, hi as int))),
            (r == SortResult::Done ==> *final(p1) == *old(p1) && *final(p2) == *old(p2)
                && final(a)@ == old(a)@
                && sorted(final(a)@.subrange(lo as int, lo + old(p1).end))
                && sorted(final(a)@.subrange(lo + old(p2).start, hi as int))),
            (r == SortResult::Progress ==> final(a)@ == old(a)@),
            (r matches SortResult::Swap(ps) ==> swap_list_ok(ps@, hi - lo) && final(a)@.subrange(
                lo as int,
                hi as int,
            ) == apply_swaps(old(a)@.subrange(lo as int, hi as int), ps@)),
            (r != SortResult::Done ==> final(p1).sort.measure(old(p1).end as int)
                + final(p2).sort.measure(hi - lo - old(p2).start)
                < old(p1).sort.measure(old(p1).end as int)
                + old(p2).sort.measure(hi - lo - old(p2).start)),
            (exists|r1: SortResult, r2: SortResult|
                #[trigger] combined_report(r1, r2, r, old(p1).end + 1) && quick_step_ens(
                    old(p1).sort,
                    final(p1).sort,
                    old(a)@.subrange(lo as int, lo + old(p1).end),
                    final(a)@.subrange(lo as int, lo + old(p1).end),
                    r1,
                ) && quick_step_ens(
                    old(p2).sort,
                    final(p2).sort,
                    old(a)@.subrange(lo + old(p2).start, hi as int),
                    final(a)@.subrange(lo + old(p2).start, hi as int),
                    r2,
                )),
        decreases hi - lo, 1int,
    {
        let ghost a0 = a@;
        let ghost v0 = a@.subrange(lo as int, hi as int);
        let p1_end = p1.end;
        let p2_start = p2.start;
        let ghost m1 = p1_end as int;
        let ghost m2 = hi - lo - p2_start as int;
        let ghost sub1_0 = a@.subrange(lo as int, lo + m1);
        let ghost sub2_0 = a@.subrange(lo + p2_start, hi as int);

        let r1 = p1.sort.step_view(a, lo, lo + p1_end);
        let ghost a1 = a@;
        let ghost sub1_1 = a1.subrange(lo as int, lo + m1);
        proof {
            assert(a1.subrange(lo + p2_start, hi as int) =~= sub2_0);
        }

        let r2 = p2.sort.step_view(a, lo + p2_start, hi);
        let ghost g1 = r1;
        let ghost g2 = r2;
        let ghost a2 = a@;
        let ghost sub2_2 = a2.subrange(lo + p2_start, hi as int);
        proof {
            assert(a2.subrange(lo as int, lo + m1) =~= sub1_1);
            assert(a2[lo + m1] == a0[lo + m1]);
            assert(v0.subrange(0, m1) =~= sub1_0);
            assert(v0.subrange(m1 + 1, (hi - lo) as int) =~= sub2_0);
        }

        match (r1, r2) {
            (SortResult::Done, SortResult::Done) => {
                proof {
                    assert forall|k: int| 0 <= k < a0.len() implies a1[k] == a0[k] by {
                        if lo <= k < lo + m1 {
                            assert(a1.subrange(lo as int, lo + m1)[k - lo] == a0.subrange(
                                lo as int,
                                lo + m1,
                            )[k - lo]);
                        }
                    }
                    assert(a1 =~= a0);
                    assert forall|k: int| 0 <= k < a1.len() implies a2[k] == a1[k] by {
                        if lo + p2_start <= k < hi {
                            assert(a2.subrange(lo + p2_start, hi as int)[k - lo - p2_start]
                                == a1.subrange(lo + p2_start, hi as int)[k - lo - p2_start]);
                        }
                    }
                    assert(a2 =~= a1);
                    assert(combined_report(g1, g2, SortResult::Done, m1 + 1));
                }
                SortResult::Done
            },
            (SortResult::Swap(v1), SortResult::Swap(mut v2)) => {
                let ghost v1s = v1@;
                let ghost v2s = v2@;
                proof {
                    lemma_apply_swaps_embed(v0, v1s, 0, m1);
                    assert(shift_swaps(v1s, 0) =~= v1s);
                    let w1 = apply_swaps(v0, v1s);
                    assert(apply_swaps(sub1_0, v1s) == sub1_1);
                    assert forall|k: int| 0 <= k < hi - lo implies a1.subrange(
                        lo as int,
                        hi as int,
                    )[k] == w1[k] by {
                        if 0 <= k < m1 {
                            assert(w1.subrange(0, m1)[k] == apply_swaps(v0.subrange(0, m1), v1s)[
                                k]);
                            assert(sub1_1[k] == a1[lo + k]);
                        } else {
                            assert(w1[k] == v0[k]);
                            assert(a1[lo + k] == a0[lo + k]);
                        }
                    }
                    assert(a1.subrange(lo as int, hi as int) =~= w1);
                    let v1mid = a1.subrange(lo as int, hi as int);
                    lemma_apply_swaps_embed(v1mid, v2s, p2_start as int, m2);
                    let sh2 = shift_swaps(v2s, p2_start as int);
                    let w2 = apply_swaps(v1mid, sh2);
                    assert(v1mid.subrange(p2_start as int, (hi - lo) as int) =~= a1.subrange(
                        lo + p2_start,
                        hi as int,
                    ));
                    assert(apply_swaps(a1.subrange(lo + p2_start, hi as int), v2s) == sub2_2);
                    assert forall|k: int| 0 <= k < hi - lo implies a2.subrange(
                        lo as int,
                        hi as int,
                    )[k] == w2[k] by {
                        if p2_start <= k < hi - lo {
                            assert(w2.subrange(p2_start as int, (hi - lo) as int)[k - p2_start]
                                == apply_swaps(
                                v1mid.subrange(p2_start as int, (hi - lo) as int),
                                v2s,
                            )[k - p2_start]);
                            assert(sub2_2[k - p2_start] == a2[lo + k]);
                        } else {
                            assert(w2[k] == v1mid[k]);
                            assert(a2[lo + k] == a1[lo + k]);
                        }
                    }
                    assert(a2.subrange(lo as int, hi as int) =~= w2);
                    lemma_apply_swaps_concat(v0, v1s, sh2);
                    assert(forall|k: int| 0 <= k < v2s.len() ==> #[trigger] v2s[k] + p2_start
                        < hi - lo);
                }
                translate_positions(&mut v2, p2_start);
                let mut v = v1;
                v.append(&mut v2);
                proof {
                    let sh2 = shift_swaps(v2s, p2_start as int);
                    assert(v@ == v1s + sh2);
                    assert forall|k: int| 0 <= k < v@.len() implies #[trigger] v@[k] < hi - lo by {
                        if k < v1s.len() {
                            assert(v@[k] == v1s[k]);
                        } else {
                            assert(v@[k] == sh2[k - v1s.len()]);
                        }
                    }
                    assert(swap_list_ok(v@, hi - lo));
                }
                let out = SortResult::Swap(v);
                proof {
                    assert(combined_report(g1, g2, out, m1 + 1));
                }
                out
            },
            (SortResult::Swap(v1), _) => {
                let ghost v1s = v1@;
                proof {
                    assert forall|k: int| 0 <= k < a1.len() implies a2[k] == a1[k] by {
                        if lo + p2_start <= k < hi {
                            assert(a2.subrange(lo + p2_start, hi as int)[k - lo - p2_start]
                                == a1.subrange(lo + p2_start, hi as int)[k - lo - p2_start]);
                        }
                    }
                    assert(a2 =~= a1);
                    lemma_apply_swaps_embed(v0, v1s, 0, m1);
                    assert(shift_swaps(v1s, 0) =~= v1s);
                    let w1 = apply_swaps(v0, v1s);
                    assert(apply_swaps(sub1_0, v1s) == sub1_1);
                    assert forall|k: int| 0 <= k < hi - lo implies a1.subrange(
                        lo as int,
                        hi as int,
                    )[k] == w1[k] by {
                        if 0 <= k < m1 {
                            assert(w1.subrange(0, m1)[k] == apply_swaps(v0.subrange(0, m1), v1s)[
                                k]);
                            assert(sub1_1[k] == a1[lo + k]);
                        } else {
                            assert(w1[k] == v0[k]);
                            assert(a1[lo + k] == a0[lo + k]);
                        }
                    }
                    assert(a1.subrange(lo as int, hi as int) =~= w1);
                }
                let out = SortResult::Swap(v1);
                proof {
                    assert(combined_report(g1, g2, out, m1 + 1));
                }
                out
            },
            (_, SortResult::Swap(mut v2)) => {
                let ghost v2s = v2@;
                proof {
                    assert forall|k: int| 0 <= k < a0.len() implies a1[k] == a0[k] by {
                        if lo <= k < lo + m1 {
                            assert(a1.subrange(lo as int, lo + m1)[k - lo] == a0.subrange(
                                lo as int,
                                lo + m1,
                            )[k - lo]);
                        }
                    }
                    assert(a1 =~= a0);
                    lemma_apply_swaps_embed(v0, v2s, p2_start as int, m2);
                    let sh2 = shift_swaps(v2s, p2_start as int);
                    let w2 = apply_swaps(v0, sh2);
                    assert(v0.subrange(p2_start as int, (hi - lo) as int) =~= sub2_0);
                    assert(apply_swaps(a1.subrange(lo + p2_start, hi as int), v2s) == sub2_2);
                    assert forall|k: int| 0 <= k < hi - lo implies a2.subrange(
                        lo as int,
                        hi as int,
                    )[k] == w2[k] by {
                        if p2_start <= k < hi - lo {
                            assert(w2.subrange(p2_start as int, (hi - lo) as int)[k - p2_start]
                                == apply_swaps(
                                v0.subrange(p2_start as int, (hi - lo) as int),
                                v2s,
                            )[k - p2_start]);
                            assert(sub2_2[k - p2_start] == a2[lo + k]);
                        } else {
                            assert(w2[k] == v0[k]);
                            assert(a2[lo + k] == a1[lo + k]);
                        }
                    }
                    assert(a2.subrange(lo as int, hi as int) =~= w2);
                    assert(forall|k: int| 0 <= k < v2s.len() ==> #[trigger] v2s[k] + p2_start
                        < hi - lo);
                }
                translate_positions(&mut v2, p2_start);
                proof {
                    assert(v2@ == shift_swaps(v2s, p2_start as int));
                    assert(swap_list_ok(v2@, hi - lo));
                }
                let out = SortResult::Swap(v2);
                proof {
                    assert(combined_report(g1, g2, out, m1 + 1));
                }
                out
            },
            _ => {
                proof {
                    assert forall|k: int| 0 <= k < a0.len() implies a1[k] == a0[k] by {
                        if lo <= k < lo + m1 {
                            assert(a1.subrange(lo as int, lo + m1)[k - lo] == a0.subrange(
                                lo as int,
                                lo + m1,
                            )[k - lo]);
                        }
                    }
                    assert(a1 =~= a0);
                    assert forall|k: int| 0 <= k < a1.len() implies a2[k] == a1[k] by {
                        if lo + p2_start <= k < hi {
                            assert(a2.subrange(lo + p2_start, hi as int)[k - lo - p2_start]
                                == a1.subrange(lo + p2_start, hi as int)[k - lo - p2_start]);
                        }
                    }
                    assert(a2 =~= a1);
                    assert(combined_report(g1, g2, SortResult::Progress, m1 + 1));
                }
                SortResult::Progress
            },
        }
    }

    /// One step of this machine against the view `[lo, hi)` of the buffer.
    #[verifier::rlimit(100)]
    #[verifier::spinoff_prover]
    pub fn step_view(&mut self, a: &mut Vec<usize>, lo: usize, hi: usize) -> (r: SortResult)
        requires
            lo <= hi <= old(a).len(),
            old(self).wf(old(a)@.subrange(lo as int, hi as int)),
        ensures
            final(a)@.len() == old(a)@.len(),
            forall|k: int|
                0 <= k < lo || hi <= k < old(a)@.len() ==> final(a)@[k] == old(a)@[k],
            final(self).wf(final(a)@.subrange(lo as int, hi as int)),
            final(a)@.subrange(lo as int, hi as int).to_multiset() == old(a)@.subrange(
                lo as int,
                hi as int,
            ).to_multiset(),
            quick_step_ens(
                *old(self),
                *final(self),
                old(a)@.subrange(lo as int, hi as int),
                final(a)@.subrange(lo as int, hi as int),
                r,
            ),
        decreases hi - lo, 2int,
    {
        let ghost v0 = a@.subrange(lo as int, hi as int);
        let ghost pre = *self;

        if hi - lo <= 1 {
            proof {
                assert(a@.subrange(lo as int, hi as int) =~= v0);
            }
            return SortResult::Done;
        }

        match &mut self.partitions {
            Some(pair) => {
                let ghost i = pre.i as int;
                proof {
                    assert(v0.subrange(0, i) =~= a@.subrange(lo as int, lo + pre.i));
                    assert(v0.subrange(i + 1, v0.len() as int) =~= a@.subrange(
                        lo + pre.i + 1,
                        hi as int,
                    ));
                }
                let r = QuickSort::sort_partitions(a, lo, hi, &mut pair.0, &mut pair.1);
                proof {
                    let v2 = a@.subrange(lo as int, hi as int);
                    assert(v2.subrange(0, i) =~= a@.subrange(lo as int, lo + pre.i));
                    assert(v2.subrange(i + 1, v2.len() as int) =~= a@.subrange(
                        lo + pre.i + 1,
                        hi as int,
                    ));
                    assert(v0.subrange(0, i) =~= old(a)@.subrange(lo as int, lo + pre.i));
                    assert(v0.subrange(i + 1, v0.len() as int) =~= old(a)@.subrange(
                        lo + pre.i + 1,
                        hi as int,
                    ));
                    assert(v2[i] == v0[i]);
                    // the pivot element still separates the rearranged halves
                    lemma_perm_keeps_upper_bound(v0.subrange(0, i), v2.subrange(0, i), v0[i]);
                    lemma_perm_keeps_lower_bound(
                        v0.subrange(i + 1, v0.len() as int),
                        v2.subrange(i + 1, v2.len() as int),
                        v0[i],
                    );
                    assert forall|k: int| 0 <= k < i implies #[trigger] v2[k] <= v2[i] by {
                        assert(v2.subrange(0, i)[k] <= v0[i]);
                    }
                    assert forall|k: int| i < k < v2.len() implies v2[i] <= #[trigger] v2[k] by {
                        assert(v2.subrange(i + 1, v2.len() as int)[k - i - 1] >= v0[i]);
                    }
                    assert(v2.to_multiset() == v0.to_multiset()) by {
                        assert(v0 =~= v0.subrange(0, i) + seq![v0[i]] + v0.subrange(
                            i + 1,
                            v0.len() as int,
                        ));
                        assert(v2 =~= v2.subrange(0, i) + seq![v2[i]] + v2.subrange(
                            i + 1,
                            v2.len() as int,
                        ));
                        lemma_multiset_of_three(
                            v0.subrange(0, i),
                            v0[i],
                            v0.subrange(i + 1, v0.len() as int),
                            v2.subrange(0, i),
                            v2[i],
                            v2.subrange(i + 1, v2.len() as int),
                        );
                    }
                    if r == SortResult::Done {
                        assert(v2 =~= v0);
                        lemma_quick_done_sorted(pre, v0);
                    }
                    // replay the children's one-step witnesses over this
                    // view's own coordinates
                    let q1f = pair.0.sort;
                    let q2f = pair.1.sort;
                    let p0 = pre.partitions.unwrap();
                    let (cr1, cr2) = choose|cr1: SortResult, cr2: SortResult|
                        #[trigger] combined_report(cr1, cr2, r, i + 1) && quick_step_ens(
                            p0.0.sort,
                            q1f,
                            old(a)@.subrange(lo as int, lo + pre.i),
                            a@.subrange(lo as int, lo + pre.i),
                            cr1,
                        ) && quick_step_ens(
                            p0.1.sort,
                            q2f,
                            old(a)@.subrange(lo + pre.i + 1, hi as int),
                            a@.subrange(lo + pre.i + 1, hi as int),
                            cr2,
                        );
                    assert(combined_report(cr1, cr2, r, i + 1));
                    assert(quick_step_ens(
                        p0.0.sort,
                        q1f,
                        v0.subrange(0, i),
                        v2.subrange(0, i),
                        cr1,
                    ));
                    assert(quick_step_ens(
                        p0.1.sort,
                        q2f,
                        v0.subrange(i + 1, v0.len() as int),
                        v2.subrange(i + 1, v2.len() as int),
                        cr2,
                    ));
                }
                r
            },
            None => {
                if self.pivot.is_none() {
                    let last = a[hi - 1];
                    self.pivot = Some(last);
                    proof {
                        assert(a@.subrange(lo as int, hi as int) =~= v0);
                        assert(v0[v0.len() - 1] == last);
                    }
                    SortResult::Progress
                } else if self.j < hi - lo - 1 {
                    let r = self.sort_pivot(a, lo, hi);
                    proof {
                        let v2 = a@.subrange(lo as int, hi as int);
                        let i = pre.i as int;
                        let j = pre.j as int;
                        if v0[j] <= pre.pivot.unwrap() {
                            let ps = seq![pre.i, pre.j];
                            assert(ps.skip(2) =~= Seq::<usize>::empty());
                            assert(apply_swaps(seq_swapped(v0, i, j), ps.skip(2)) == seq_swapped(
                                v0,
                                i,
                                j,
                            ));
                            assert(v2 == apply_swaps(v0, ps));
                        }
                        assert(self.wf(v2));
                    }
                    r
                } else {
                    let r = self.create_partitions(a, lo, hi);
                    proof {
                        let v2 = a@.subrange(lo as int, hi as int);
                        let i = pre.i as int;
                        let len = v0.len() as int;
                        let ps = seq![pre.i, (hi - lo - 1) as usize];
                        assert(ps.skip(2) =~= Seq::<usize>::empty());
                        assert(apply_swaps(seq_swapped(v0, i, len - 1), ps.skip(2))
                            == seq_swapped(v0, i, len - 1));
                        assert(v2 == apply_swaps(v0, ps));
                        assert forall|k: int| 0 <= k < i implies #[trigger] v2[k] <= v2[i] by {}
                        assert forall|k: int| i < k < len implies v2[i] <= #[trigger] v2[k] by {
                            if k < len - 1 {
                                assert(v0[k] > pre.pivot.unwrap());
                            } else {
                                assert(v2[k] == v0[i]);
                                assert(v0[i] > pre.pivot.unwrap());
                            }
                        }
                        assert(self.partitions.unwrap().0.sort.wf(v2.subrange(0, i)));
                        assert(self.partitions.unwrap().1.sort.wf(v2.subrange(i + 1, len)));
                        assert(self.wf(v2));
                        let x = i;
                        let y = len - 1 - i;
                        let f1 = self.partitions.unwrap().0.sort.measure(x);
                        let f2 = self.partitions.unwrap().1.sort.measure(y);
                        assert(f1 == if x <= 1 { 0int } else { x + 1 + (x - 1) * (x - 1) });
                        assert(f2 == if y <= 1 { 0int } else { y + 1 + (y - 1) * (y - 1) });
                        if x <= 1 && y <= 1 {
                            assert((len - 1) * (len - 1) >= 0) by (nonlinear_arith);
                        } else if x <= 1 {
                            assert(y + 1 + (y - 1) * (y - 1) <= (len - 1) * (len - 1))
                                by (nonlinear_arith)
                                requires
                                    2 <= y,
                                    y <= len - 1,
                            ;
                        } else if y <= 1 {
                            assert(x + 1 + (x - 1) * (x - 1) <= (len - 1) * (len - 1))
                                by (nonlinear_arith)
                                requires
                                    2 <= x,
                                    x <= len - 1,
                            ;
                        } else {
                            assert(x + 1 + (x - 1) * (x - 1) + y + 1 + (y - 1) * (y - 1) <= (len
                                - 1) * (len - 1))
                                by (nonlinear_arith)
                                requires
                                    2 <= x,
                                    2 <= y,
                                    x + y == len - 1,
                            ;
                        }
                        assert(self.measure(len) < pre.measure(len));
                    }
                    r
                }
            },
        }
    }
}

/// Splitting two rearranged sequences the same way relates their multisets.
proof fn lemma_multiset_of_three(
    l1: Seq<usize>,
    m1: usize,
    r1: Seq<usize>,
    l2: Seq<usize>,
    m2: usize,
    r2: Seq<usize>,
)
    requires
        l1.to_multiset() == l2.to_multiset(),
        r1.to_multiset() == r2.to_multiset(),
        m1 == m2,
    ensures
        (l1 + seq![m1] + r1).to_multiset() == (l2 + seq![m2] + r2).to_multiset(),
{
    lemma_to_multiset_of_add(l1, seq![m1]);
    lemma_to_multiset_of_add(l1 + seq![m1], r1);
    lemma_to_multiset_of_add(l2, seq![m2]);
    lemma_to_multiset_of_add(l2 + seq![m2], r2);
}

impl Sort for QuickSort {
    open spec fn inv(&self, s: Seq<usize>) -> bool {
        self.wf(s)
    }

    open spec fn step_ens(
        &self,
        pre: Self,
        pre_s: Seq<usize>,
        post_s: Seq<usize>,
        r: SortResult,
    ) -> bool {
        quick_step_ens(pre, *self, pre_s, post_s, r)
    }

    fn step(&mut self, a: &mut Vec<usize>) -> (r: SortResult) {
        let ghost pre_s = a@;
        let n = a.len();
        proof {
            assert(a@.subrange(0, a@.len() as int) =~= a@);
        }
        let r = self.step_view(a, 0, n);
        proof {
            assert(pre_s.subrange(0, pre_s.len() as int) =~= pre_s);
            assert(a@.subrange(0, a@.len() as int) =~= a@);
        }
        r
    }
}

} // verus!
