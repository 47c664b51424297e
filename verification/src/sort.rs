//! The step-wise sorting contract and the utilities shared by every
//! algorithm: the element swap, the (deliberately relaxed) orderedness test
//! used by Bogosort, and the uniform shuffle that precedes a run.

use vstd::prelude::*;
use vstd::multiset::Multiset;
use vstd::seq_lib::to_multiset_update;

mod bogosort;
mod bubblesort;
mod cocktail;
mod quicksort;
mod insertion;
mod selection;

pub use bogosort::{bogo_step_ens, BogoSort};
pub use bubblesort::{bubble_step_ens, lemma_bubble_measure_bound, BubbleSort};
pub use cocktail::{
    cocktail_step_ens, lemma_cocktail_measure_bound, CocktailShakerSort, ShakerDirection,
};
pub use insertion::{insertion_step_ens, lemma_insertion_measure_bound, InsertionSort};
pub use quicksort::{
    combined_report, in_range, lemma_partition_disjointness, lemma_quick_done_sorted,
    lemma_quick_measure_bound, quick_step_ens, Partition, QuickSort,
};
pub use selection::{lemma_selection_measure_bound, selection_step_ens, SelectionSort};

verus! {

/// What one `step` call reports back to the driver.
///
/// `Done` certifies that the view is ordered and the run is over; `Swap`
/// carries the view-relative positions touched by an exchange this step (or,
/// for Selection Sort's scan signal, the scan cursor); `Progress` means progress
/// was made with no user-visible exchange.
#[derive(Debug, PartialEq, Eq)]
pub enum SortResult {
    Done,
    Swap(Vec<usize>),
    Progress,
}

/// The buffer is fully non-decreasing.
pub open spec fn sorted(s: Seq<usize>) -> bool {
    forall|x: int, y: int| 0 <= x <= y < s.len() ==> s[x] <= s[y]
}

/// The relaxed adjacency-skipping check Bogosort certifies: every element is
/// at most the element two places to its right. Weaker than `sorted`.
pub open spec fn loosely_sorted(s: Seq<usize>) -> bool {
    forall|x: int| 0 <= x && x + 2 < s.len() ==> #[trigger] s[x] <= s[x + 2]
}

/// The sequence `s` with the elements at `i` and `j` exchanged.
pub open spec fn seq_swapped(s: Seq<usize>, i: int, j: int) -> Seq<usize> {
    s.update(i, s[j]).update(j, s[i])
}

/// Exchanging two elements of a sequence keeps its multiset of elements.
pub proof fn lemma_swap_preserves_multiset(s: Seq<usize>, i: int, j: int)
    requires
        0 <= i < s.len(),
        0 <= j < s.len(),
    ensures
        seq_swapped(s, i, j).to_multiset() == s.to_multiset(),
{
    broadcast use vstd::multiset::group_multiset_axioms;
    broadcast use vstd::seq_lib::to_multiset_update;
    broadcast use vstd::seq_lib::to_multiset_contains;

    let m = s.to_multiset();
    let t = s.update(i, s[j]);
    let u = t.update(j, s[i]);
    assert(t[j] == s[j]);
    assert(s.contains(s[i]));
    assert(s.contains(s[j]));
    assert(m.count(s[i]) > 0);
    assert(m.count(s[j]) > 0);
    assert(t.to_multiset() == m.insert(s[j]).remove(s[i]));
    assert(u.to_multiset() == t.to_multiset().insert(s[i]).remove(s[j]));
    assert(u.to_multiset() =~= m);
}

/// Exchange the elements at positions `i` and `j`.
pub fn swap(a: &mut Vec<usize>, i: usize, j: usize)
    requires
        i < old(a).len(),
        j < old(a).len(),
    ensures
        final(a)@ == seq_swapped(old(a)@, i as int, j as int),
        final(a)@.to_multiset() == old(a)@.to_multiset(),
        final(a)@.len() == old(a)@.len(),
{
    proof {
        lemma_swap_preserves_multiset(a@, i as int, j as int);
    }
    let temp = a[j];
    a[j] = a[i];
    a[i] = temp;
}

/// The relaxed orderedness test used by Bogosort: compares each element with
/// the one two places to its right, never with its direct neighbour.
pub fn is_sorted(data: &Vec<usize>) -> (r: bool)
    ensures
        r == loosely_sorted(data@),
{
    if data.len() < 2 {
        return true;
    }
    let mut i: usize = 0;
    while i < data.len() - 2
        invariant
            data@.len() >= 2,
            0 <= i <= data@.len() - 2,
            forall|x: int| 0 <= x < i ==> #[trigger] data@[x] <= data@[x + 2],
        decreases data@.len() - i,
    {
        if data[i] > data[i + 2] {
            return false;
        }
        i += 1;
    }
    true
}

/// A well-formed swap report: an even-length list of positions, each within
/// the view, read as consecutive pairs of exchanged indices.
pub open spec fn swap_list_ok(ps: Seq<usize>, len: int) -> bool {
    &&& ps.len() % 2 == 0
    &&& forall|k: int| 0 <= k < ps.len() ==> ps[k] < len
}

/// The sequence obtained by performing the reported exchanges in order.
pub open spec fn apply_swaps(s: Seq<usize>, ps: Seq<usize>) -> Seq<usize>
    decreases ps.len(),
{
    if ps.len() < 2 {
        s
    } else {
        apply_swaps(seq_swapped(s, ps[0] as int, ps[1] as int), ps.skip(2))
    }
}

/// The same position list, moved by a fixed offset (how a nested view's
/// report is translated into its parent view's coordinate space).
pub open spec fn shift_swaps(ps: Seq<usize>, off: int) -> Seq<usize> {
    Seq::new(ps.len(), |k: int| (ps[k] + off) as usize)
}

/// Performing reported exchanges keeps the length and the multiset.
pub proof fn lemma_apply_swaps_props(s: Seq<usize>, ps: Seq<usize>)
    requires
        swap_list_ok(ps, s.len() as int),
    ensures
        apply_swaps(s, ps).len() == s.len(),
        apply_swaps(s, ps).to_multiset() == s.to_multiset(),
    decreases ps.len(),
{
    if ps.len() >= 2 {
        let s1 = seq_swapped(s, ps[0] as int, ps[1] as int);
        lemma_swap_preserves_multiset(s, ps[0] as int, ps[1] as int);
        assert(swap_list_ok(ps.skip(2), s1.len() as int));
        lemma_apply_swaps_props(s1, ps.skip(2));
    }
}

/// Exchanges compose: a concatenated report is the two reports in sequence.
pub proof fn lemma_apply_swaps_concat(s: Seq<usize>, p: Seq<usize>, q: Seq<usize>)
    requires
        p.len() % 2 == 0,
    ensures
        apply_swaps(s, p + q) == apply_swaps(apply_swaps(s, p), q),
    decreases p.len(),
{
    if p.len() == 0 {
        assert(p + q =~= q);
    } else {
        let s1 = seq_swapped(s, p[0] as int, p[1] as int);
        assert((p + q).skip(2) =~= p.skip(2) + q);
        lemma_apply_swaps_concat(s1, p.skip(2), q);
    }
}

/// Exchanges confined to a sub-view act on the parent view exactly as they
/// act on the sub-view, and leave everything outside the sub-view unchanged.
pub proof fn lemma_apply_swaps_embed(s: Seq<usize>, ps: Seq<usize>, off: int, m: int)
    requires
        0 <= off,
        0 <= m,
        off + m <= s.len(),
        s.len() <= usize::MAX,
        swap_list_ok(ps, m),
    ensures
        apply_swaps(s, shift_swaps(ps, off)).len() == s.len(),
        apply_swaps(s, shift_swaps(ps, off)).subrange(off, off + m)
            == apply_swaps(s.subrange(off, off + m), ps),
        forall|k: int| 0 <= k < s.len() && !(off <= k < off + m)
            ==> apply_swaps(s, shift_swaps(ps, off))[k] == s[k],
    decreases ps.len(),
{
    let sh = shift_swaps(ps, off);
    if ps.len() < 2 {
        assert(apply_swaps(s, sh) == s);
        assert(apply_swaps(s.subrange(off, off + m), ps) == s.subrange(off, off + m));
    } else {
        let s1 = seq_swapped(s, ps[0] + off, ps[1] + off);
        let t = s.subrange(off, off + m);
        let t1 = seq_swapped(t, ps[0] as int, ps[1] as int);
        assert(s1.subrange(off, off + m) =~= t1);
        assert(sh.skip(2) =~= shift_swaps(ps.skip(2), off));
        assert(swap_list_ok(ps.skip(2), m));
        lemma_apply_swaps_embed(s1, ps.skip(2), off, m);
        assert(sh[0] as int == ps[0] + off);
        assert(sh[1] as int == ps[1] + off);
        assert(seq_swapped(s, sh[0] as int, sh[1] as int) == s1);
        assert(apply_swaps(s, sh) == apply_swaps(s1, sh.skip(2)));
        assert(apply_swaps(t, ps) == apply_swaps(t1, ps.skip(2)));
        assert(apply_swaps(s, sh).subrange(off, off + m) == apply_swaps(s.subrange(off, off + m),
            ps));
        assert forall|k: int| 0 <= k < s.len() && !(off <= k < off + m)
            implies apply_swaps(s, sh)[k] == s[k] by {
            assert(s1[k] == s[k]);
        }
    }
}

/// The multiset of a concatenation is the sum of the parts' multisets.
pub proof fn lemma_to_multiset_of_add(s1: Seq<usize>, s2: Seq<usize>)
    ensures
        (s1 + s2).to_multiset() == s1.to_multiset().add(s2.to_multiset()),
    decreases s2.len(),
{
    broadcast use vstd::seq_lib::group_to_multiset_ensures;
    broadcast use vstd::multiset::group_multiset_axioms;

    if s2.len() == 0 {
        assert(s1 + s2 =~= s1);
        assert(s2.to_multiset() =~= Multiset::<usize>::empty());
        assert(s1.to_multiset().add(s2.to_multiset()) =~= s1.to_multiset());
    } else {
        let s2p = s2.drop_last();
        let e = s2.last();
        lemma_to_multiset_of_add(s1, s2p);
        assert(s1 + s2 =~= (s1 + s2p).push(e));
        assert(s2 =~= s2p.push(e));
        assert((s1 + s2p).push(e).to_multiset() =~= (s1 + s2p).to_multiset().insert(e));
        assert(s2.to_multiset() =~= s2p.to_multiset().insert(e));
        assert(s1.to_multiset().add(s2p.to_multiset().insert(e)) =~= s1.to_multiset().add(
            s2p.to_multiset(),
        ).insert(e));
        assert((s1 + s2).to_multiset() =~= s1.to_multiset().add(s2.to_multiset()));
    }
}

/// A rearrangement of a sequence keeps any upper bound on its elements.
pub proof fn lemma_perm_keeps_upper_bound(s: Seq<usize>, t: Seq<usize>, v: usize)
    requires
        s.to_multiset() == t.to_multiset(),
        forall|k: int| 0 <= k < s.len() ==> s[k] <= v,
    ensures
        forall|k: int| 0 <= k < t.len() ==> t[k] <= v,
{
    broadcast use vstd::seq_lib::to_multiset_contains;

    assert forall|k: int| 0 <= k < t.len() implies t[k] <= v by {
        assert(t.contains(t[k]));
        assert(t.to_multiset().count(t[k]) > 0);
        assert(s.to_multiset().count(t[k]) > 0);
        assert(s.contains(t[k]));
        let w = choose|w: int| 0 <= w < s.len() && s[w] == t[k];
        assert(s[w] <= v);
    }
}

/// A rearrangement of a sequence keeps any lower bound on its elements.
pub proof fn lemma_perm_keeps_lower_bound(s: Seq<usize>, t: Seq<usize>, v: usize)
    requires
        s.to_multiset() == t.to_multiset(),
        forall|k: int| 0 <= k < s.len() ==> s[k] >= v,
    ensures
        forall|k: int| 0 <= k < t.len() ==> t[k] >= v,
{
    broadcast use vstd::seq_lib::to_multiset_contains;

    assert forall|k: int| 0 <= k < t.len() implies t[k] >= v by {
        assert(t.contains(t[k]));
        assert(t.to_multiset().count(t[k]) > 0);
        assert(s.to_multiset().count(t[k]) > 0);
        assert(s.contains(t[k]));
        let w = choose|w: int| 0 <= w < s.len() && s[w] == t[k];
        assert(s[w] >= v);
    }
}

/// A view of length 0 or 1 is terminal for every freshly created variant,
/// so the first step reports `Done` (for Bogosort, because the relaxed check
/// holds of every view this short).
pub proof fn lemma_base_case_done(s: Seq<usize>)
    requires
        s.len() <= 1,
    ensures
        (BubbleSort { swapped: false, i: 1usize, n: 0usize }).is_done(s),
        (InsertionSort { i: 1usize, j: 1usize }).is_done(s),
        (SelectionSort { i: 0usize, j: 1usize, min: 0usize }).is_done(s),
        (CocktailShakerSort {
            direction: ShakerDirection::Forward,
            i: 0usize,
            swapped: false,
            start_pad: 0usize,
            end_pad: 0usize,
        }).is_done(s),
        (QuickSort { partitions: None, pivot: None, i: 0usize, j: 0usize }).is_done(s),
        loosely_sorted(s),
{
}

/// Relies on rand::random: returns an arbitrary value drawn from the
/// thread-local generator. Nothing can be promised of the result.
#[verifier::external_body]
fn random_usize() -> usize {
    rand::random::<u64>() as usize
}

/// Permute the buffer in place, uniformly at random: at each position the
/// partner is drawn from the not-yet-fixed suffix (a Fisher–Yates pass).
/// Whatever the random draws, the elements are only rearranged.
pub fn shuffle(a: &mut Vec<usize>)
    ensures
        final(a)@.to_multiset() == old(a)@.to_multiset(),
        final(a)@.len() == old(a)@.len(),
{
    let mut i: usize = 0;
    while i < a.len()
        invariant
            a@.to_multiset() == old(a)@.to_multiset(),
            a@.len() == old(a)@.len(),
        decreases a@.len() - i,
    {
        let r = i + random_usize() % (a.len() - i);
        swap(a, r, i);
        i += 1;
    }
}

/// The capability every algorithm variant implements: perform one step of
/// work against the buffer and report what changed.
///
/// `inv` is the variant's well-formedness relation between its cursors and
/// the buffer; the driver must not step an instance whose invariant does not
/// hold (instances are created fresh, with `inv` holding for every buffer).
/// `step_ens` is the variant's own transition contract, relating the states
/// and buffer contents before and after the step to the reported result.
pub trait Sort: Sized {
    spec fn inv(&self, s: Seq<usize>) -> bool;

    spec fn step_ens(&self, pre: Self, pre_s: Seq<usize>, post_s: Seq<usize>, r: SortResult) -> bool;

    /// One atomic unit of algorithmic progress: a step never resizes the
    /// buffer, only rearranges it, and keeps the variant's invariant.
    fn step(&mut self, a: &mut Vec<usize>) -> (r: SortResult)
        requires
            old(self).inv(old(a)@),
        ensures
            final(self).inv(final(a)@),
            final(a)@.len() == old(a)@.len(),
            final(a)@.to_multiset() == old(a)@.to_multiset(),
            final(self).step_ens(*old(self), old(a)@, final(a)@, r),
    ;
}

/// Which algorithm variant a menu entry selects.
#[derive(Clone, Copy)]
pub enum SortKind {
    Bogo,
    Bubble,
    Cocktail,
    Insertion,
    Quick,
    Selection,
}

/// The closed union of the six algorithm state machines: exactly these six
/// exist, and a driver holds whichever one is running through this type.
pub enum AnySort {
    Bogo(BogoSort),
    Bubble(BubbleSort),
    Cocktail(CocktailShakerSort),
    Insertion(InsertionSort),
    Quick(QuickSort),
    Selection(SelectionSort),
}

/// The state each variant starts a run in, with all cursors at their
/// initial values.
pub open spec fn fresh_sort(kind: SortKind) -> AnySort {
    match kind {
        SortKind::Bogo => AnySort::Bogo(BogoSort {}),
        SortKind::Bubble => AnySort::Bubble(BubbleSort { swapped: false, i: 1usize, n: 0usize }),
        SortKind::Cocktail => AnySort::Cocktail(CocktailShakerSort {
            direction: ShakerDirection::Forward,
            i: 0usize,
            swapped: false,
            start_pad: 0usize,
            end_pad: 0usize,
        }),
        SortKind::Insertion => AnySort::Insertion(InsertionSort { i: 1usize, j: 1usize }),
        SortKind::Quick => AnySort::Quick(QuickSort {
            partitions: None,
            pivot: None,
            i: 0usize,
            j: 0usize,
        }),
        SortKind::Selection => AnySort::Selection(SelectionSort {
            i: 0usize,
            j: 1usize,
            min: 0usize,
        }),
    }
}

impl AnySort {
    pub fn new(kind: SortKind) -> (r: AnySort)
        ensures
            r == fresh_sort(kind),
            forall|s: Seq<usize>| r.inv(s),
    {
        match kind {
            SortKind::Bogo => AnySort::Bogo(BogoSort::new()),
            SortKind::Bubble => AnySort::Bubble(BubbleSort::new()),
            SortKind::Cocktail => AnySort::Cocktail(CocktailShakerSort::new()),
            SortKind::Insertion => AnySort::Insertion(InsertionSort::new()),
            SortKind::Quick => AnySort::Quick(QuickSort::new()),
            SortKind::Selection => AnySort::Selection(SelectionSort::new()),
        }
    }
}

impl Sort for AnySort {
    open spec fn inv(&self, s: Seq<usize>) -> bool {
        match *self {
            AnySort::Bogo(m) => m.inv(s),
            AnySort::Bubble(m) => m.inv(s),
            AnySort::Cocktail(m) => m.inv(s),
            AnySort::Insertion(m) => m.inv(s),
            AnySort::Quick(m) => m.inv(s),
            AnySort::Selection(m) => m.inv(s),
        }
    }

    open spec fn step_ens(
        &self,
        pre: Self,
        pre_s: Seq<usize>,
        post_s: Seq<usize>,
        r: SortResult,
    ) -> bool {
        match (pre, *self) {
            (AnySort::Bogo(p), AnySort::Bogo(q)) => q.step_ens(p, pre_s, post_s, r),
            (AnySort::Bubble(p), AnySort::Bubble(q)) => q.step_ens(p, pre_s, post_s, r),
            (AnySort::Cocktail(p), AnySort::Cocktail(q)) => q.step_ens(p, pre_s, post_s, r),
            (AnySort::Insertion(p), AnySort::Insertion(q)) => q.step_ens(p, pre_s, post_s, r),
            (AnySort::Quick(p), AnySort::Quick(q)) => q.step_ens(p, pre_s, post_s, r),
            (AnySort::Selection(p), AnySort::Selection(q)) => q.step_ens(p, pre_s, post_s, r),
            _ => false,
        }
    }

    fn step(&mut self, a: &mut Vec<usize>) -> (r: SortResult) {
        match self {
            AnySort::Bogo(m) => m.step(a),
            AnySort::Bubble(m) => m.step(a),
            AnySort::Cocktail(m) => m.step(a),
            AnySort::Insertion(m) => m.step(a),
            AnySort::Quick(m) => m.step(a),
            AnySort::Selection(m) => m.step(a),
        }
    }
}

} // verus!
