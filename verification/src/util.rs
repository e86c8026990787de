//! The largest score of a list, and the boundaries of the segments that a
//! set of change points cuts a series into.

use crate::score::{lemma_not_above_then_below, max_ratio, score_views, Ratio, Score};
use itertools::Itertools;
use vstd::prelude::*;

verus! {

/// `idx` is where the largest score of `list` stands first: no score is
/// above it and every score before it is below it.
pub open spec fn is_first_maximum(list: Seq<Score>, idx: int) -> bool {
    &&& 0 <= idx < list.len()
    &&& forall|j: int| 0 <= j < list.len() ==> !list[idx]@.below(#[trigger] list[j]@)
    &&& forall|j: int| 0 <= j < idx ==> (#[trigger] list[j])@.below(list[idx]@)
}

/// The place and the value of the largest score of a list; of several equal
/// ones, the first. For an empty list, place 0 and the score 0.
pub fn maximum(list: &Vec<Score>) -> (best: (usize, Score))
    ensures
        list.len() == 0 ==> best.0 == 0 && best.1@ == (Ratio { num: 0, den: 1 }),
        list.len() > 0 ==> is_first_maximum(list@, best.0 as int) && best.1 == list[best.0 as int],
        best.1@ == max_ratio(score_views(list@)),
        best.1.wf(),
        forall|j: int| 0 <= j < list.len() ==> (#[trigger] list[j]).wf(),
{
    if list.len() == 0 {
        assert(score_views(list@).len() == 0);
        return (0, Score::zero());
    }
    let mut idx_max: usize = 0;
    let mut val_max: Score = list[0];
    proof {
        use_type_invariant(&val_max);
        assert(score_views(list@.subrange(0, 1)).len() == 1);
    }
    let mut idx: usize = 1;
    while idx < list.len()
        invariant
            1 <= idx <= list.len(),
            idx_max < idx,
            val_max == list[idx_max as int],
            forall|j: int| 0 <= j < idx ==> (#[trigger] list[j]).wf(),
            forall|j: int| 0 <= j < idx ==> !val_max@.below(#[trigger] list[j]@),
            forall|j: int| 0 <= j < idx_max ==> (#[trigger] list[j])@.below(val_max@),
            val_max@ == max_ratio(score_views(list@.subrange(0, idx as int))),
        decreases list.len() - idx,
    {
        let val: Score = list[idx];
        proof {
            let longer = score_views(list@.subrange(0, idx + 1));
            assert(longer.drop_last() =~= score_views(list@.subrange(0, idx as int)));
            assert(longer.last() == val@);
        }
        if val_max.is_below(&val) {
            proof {
                assert forall|j: int| 0 <= j < idx implies (#[trigger] list[j])@.below(val@) by {
                    lemma_not_above_then_below(list[j]@, val_max@, val@);
                }
            }
            idx_max = idx;
            val_max = val;
        }
        idx += 1;
    }
    assert(list@.subrange(0, idx as int) =~= list@);
    (idx_max, val_max)
}

/// The place of the largest score of a list; of several equal ones, the
/// first. For an empty list, 0.
pub fn argmax(list: &Vec<Score>) -> (idx: usize)
    ensures
        list.len() == 0 ==> idx == 0,
        list.len() > 0 ==> is_first_maximum(list@, idx as int),
        forall|j: int| 0 <= j < list.len() ==> (#[trigger] list[j]).wf(),
{
    let (max_idx, _) = maximum(list);
    max_idx
}

/// No item of `s` is larger than a later one.
pub open spec fn ascending(s: Seq<usize>) -> bool {
    forall|i: int, j: int| 0 <= i < j < s.len() ==> s[i] <= s[j]
}

/// Every item of `s` is smaller than every later one.
pub open spec fn strictly_ascending(s: Seq<usize>) -> bool {
    forall|i: int, j: int| 0 <= i < j < s.len() ==> s[i] < s[j]
}

/// `w` is the list of boundaries for the cuts `cuts` of a series of
/// `series_len` samples: 0, then the cuts in ascending order, then
/// `series_len` unless the list already ends with it.
pub open spec fn is_windowing(w: Seq<usize>, cuts: Seq<usize>, series_len: int) -> bool {
    let k = cuts.len() as int;
    &&& k + 1 <= w.len() <= k + 2
    &&& w[0] == 0
    &&& ascending(w.subrange(1, k + 1))
    &&& w.subrange(1, k + 1).to_multiset() == cuts.to_multiset()
    &&& w.len() == k + 1 <==> w[k] == series_len
    &&& w.len() == k + 2 ==> w[k + 1] == series_len
}

/// Calls `Itertools::sorted` on the items of a list. The result is claimed
/// to hold the same items, each as often as the list does, in ascending
/// order.
#[verifier::external_body]
fn sorted_copy(items: &Vec<usize>) -> (sorted: Vec<usize>)
    ensures
        sorted@.to_multiset() == items@.to_multiset(),
        ascending(sorted@),
{
    items.iter().copied().sorted().collect()
}

/// The boundaries of the segments that the change points cut a series of
/// `series_len` samples into: 0, the change points in ascending order, and
/// `series_len` unless the list already ends with it.
pub fn get_windows(change_points: &Vec<usize>, series_len: usize) -> (boundaries: Vec<usize>)
    ensures
        is_windowing(boundaries@, change_points@, series_len as int),
{
    let mut boundaries: Vec<usize> = Vec::new();
    boundaries.push(0);
    let mut sorted = sorted_copy(change_points);
    let ghost in_order = sorted@;
    proof {
        vstd::seq_lib::to_multiset_len(in_order);
        vstd::seq_lib::to_multiset_len(change_points@);
    }
    boundaries.append(&mut sorted);
    assert(boundaries@.subrange(1, change_points@.len() as int + 1) =~= in_order);
    let last: usize = boundaries[boundaries.len() - 1];
    if last != series_len {
        boundaries.push(series_len);
        assert(boundaries@.subrange(1, change_points@.len() as int + 1) =~= in_order);
    }
    boundaries
}

/// Where all cuts are different and lie strictly inside a series that is not
/// empty, the boundaries rise strictly from 0 to the length of the series,
/// and those between the two ends are exactly the cuts.
pub proof fn lemma_windowing_of_interior_cuts(w: Seq<usize>, cuts: Seq<usize>, series_len: int)
    requires
        is_windowing(w, cuts, series_len),
        0 < series_len,
        cuts.no_duplicates(),
        forall|i: int| 0 <= i < cuts.len() ==> 0 < #[trigger] cuts[i] < series_len,
    ensures
        w.len() == cuts.len() + 2,
        w[0] == 0,
        w[w.len() - 1] == series_len,
        strictly_ascending(w),
        forall|i: int| 0 < i < w.len() - 1 ==> cuts.contains(#[trigger] w[i]),
        forall|i: int| 0 <= i < cuts.len() ==> w.contains(#[trigger] cuts[i]),
{
    broadcast use vstd::seq_lib::group_to_multiset_ensures;

    let k = cuts.len() as int;
    let inner = w.subrange(1, k + 1);
    assert forall|i: int| 0 <= i < inner.len() implies cuts.contains(#[trigger] inner[i]) by {
        assert(inner.contains(inner[i]));
        assert(inner.to_multiset().count(inner[i]) > 0);
    }
    cuts.lemma_multiset_has_no_duplicates();
    inner.lemma_multiset_has_no_duplicates_conv();
    assert forall|i: int| 0 < i < k + 1 implies cuts.contains(#[trigger] w[i]) by {
        assert(w[i] == inner[i - 1]);
    }
    if k > 0 {
        assert(cuts.contains(w[k]));
    }
    assert forall|i: int, j: int| 0 <= i < j < w.len() implies w[i] < w[j] by {
        if j <= k {
            assert(cuts.contains(w[j]));
            if i > 0 {
                assert(inner[i - 1] <= inner[j - 1]);
                assert(inner[i - 1] != inner[j - 1]);
            }
        } else {
            if i > 0 {
                assert(cuts.contains(w[i]));
            }
        }
    }
    assert forall|i: int| 0 <= i < cuts.len() implies w.contains(#[trigger] cuts[i]) by {
        assert(cuts.contains(cuts[i]));
        assert(inner.to_multiset().count(cuts[i]) > 0);
        assert(inner.contains(cuts[i]));
        let at = choose|at: int| 0 <= at < inner.len() && inner[at] == cuts[i];
        assert(w[at + 1] == cuts[i]);
    }
}

/// The boundaries for given cuts are unique: two lists that both are the
/// boundaries for the same cuts of the same series are the same list.
pub proof fn lemma_windowing_is_unique(
    first: Seq<usize>,
    second: Seq<usize>,
    cuts: Seq<usize>,
    series_len: int,
)
    requires
        is_windowing(first, cuts, series_len),
        is_windowing(second, cuts, series_len),
    ensures
        first == second,
{
    let k = cuts.len() as int;
    let leq = |a: usize, b: usize| a <= b;
    let x = first.subrange(1, k + 1);
    let y = second.subrange(1, k + 1);
    assert(vstd::relations::sorted_by(x, leq));
    assert(vstd::relations::sorted_by(y, leq));
    assert(vstd::relations::total_ordering(leq));
    vstd::seq_lib::lemma_sorted_unique(x, y, leq);
    assert forall|i: int| 0 <= i < k + 1 implies first[i] == second[i] by {
        if i > 0 {
            assert(first[i] == x[i - 1]);
            assert(second[i] == y[i - 1]);
        }
    }
    assert(first =~= second);
}

} // verus!
