//! Perturbation moves of the local search: shifting one cut point.
use crate::feasibility::{check_feasibility, feasibility};
use crate::model::{cuts_wf, strictly_increasing, total_of, GroupInfo, PageAssignment, Params};
use vstd::prelude::*;

verus! {

/// Where the cut `cut_index` of `cuts` lands when shifted by `delta`, if the
/// shift keeps it within `[0, total_photos]`, keeps the first cut at 0 and
/// keeps it strictly between its neighbours; `None` otherwise.
pub open spec fn perturbed_cut(cuts: Seq<usize>, cut_index: int, delta: int, total_photos: int) -> Option<
    usize,
> {
    if cut_index < 0 || cut_index >= cuts.len() {
        None
    } else {
        let new_cut = (cuts[cut_index] as i32) + delta;
        if new_cut < 0 || new_cut > total_photos {
            None
        } else if cut_index == 0 && new_cut != 0 {
            None
        } else if cut_index > 0 && new_cut <= cuts[cut_index - 1] {
            None
        } else if cut_index + 1 < cuts.len() && new_cut >= cuts[cut_index + 1] {
            None
        } else {
            Some(new_cut as usize)
        }
    }
}

/// A shift that keeps the cut within the photos, the first cut at 0 and the
/// cut strictly between its neighbours lands exactly `delta` photos away; any
/// other shift is refused. The outcome depends on `delta` only through the
/// shifted cut.
pub proof fn lemma_perturbed_cut_exact(cuts: Seq<usize>, cut_index: int, delta: int, total_photos: int)
    requires
        0 <= cut_index < cuts.len(),
        cuts[cut_index] <= i32::MAX,
        i32::MIN <= cuts[cut_index] + delta <= i32::MAX,
    ensures
        ({
            let c = cuts[cut_index] + delta;
            let fits = 0 <= c <= total_photos && (cut_index == 0 ==> c == 0) && (cut_index > 0
                ==> cuts[cut_index - 1] < c) && (cut_index + 1 < cuts.len() ==> c < cuts[cut_index
                + 1]);
            &&& fits ==> perturbed_cut(cuts, cut_index, delta, total_photos) == Some(c as usize)
            &&& !fits ==> perturbed_cut(cuts, cut_index, delta, total_photos) is None
        }),
{
    assert((cuts[cut_index] as i32) == cuts[cut_index]);
}

/// Attempts to shift the cut `cut_index` by `delta` positions.
///
/// Returns the new assignment if the shifted cut stays within the photos,
/// the first cut stays at 0, the shifted cut stays strictly between its
/// neighbours and the new assignment is feasible; `None` otherwise.
pub fn try_perturbation(
    assignment: &PageAssignment,
    cut_index: usize,
    delta: i32,
    groups: &GroupInfo,
    params: &Params,
) -> (r: Option<PageAssignment>)
    requires
        assignment.wf(),
        groups.wf(),
        assignment@.last() <= total_of(groups@),
        cut_index < assignment@.len() ==> i32::MIN <= (assignment@[cut_index as int] as i32) + delta
            <= i32::MAX,
    ensures
        perturbed_cut(assignment@, cut_index as int, delta as int, total_of(groups@)) is None
            ==> r is None,
        perturbed_cut(assignment@, cut_index as int, delta as int, total_of(groups@)) matches Some(
            c,
        ) ==> {
            &&& r is Some <==> feasibility(assignment@.update(cut_index as int, c), groups@, *params)
                is Ok
            &&& r matches Some(a) ==> a.wf() && a@ == assignment@.update(cut_index as int, c)
        },
        ({
            let cuts = assignment@;
            let c = cuts[cut_index as int] + delta;
            (cut_index < cuts.len() && cuts[cut_index as int] <= i32::MAX && 0 <= c <= total_of(
                groups@,
            ) && (cut_index == 0 ==> c == 0) && (cut_index > 0 ==> cuts[cut_index - 1] < c) && (
            cut_index + 1 < cuts.len() ==> c < cuts[cut_index + 1])) ==> (r is Some <==> feasibility(
                cuts.update(cut_index as int, c as usize),
                groups@,
                *params,
            ) is Ok)
        }),
{
    let cuts = assignment.cuts();
    if cut_index >= cuts.len() {
        return None;
    }
    proof {
        if cuts@[cut_index as int] <= i32::MAX {
            lemma_perturbed_cut_exact(cuts@, cut_index as int, delta as int, total_of(groups@));
        }
    }
    let current_cut = cuts[cut_index];
    let new_cut_signed = current_cut as i32 + delta;
    let total = groups.total_photos();
    if new_cut_signed < 0 || new_cut_signed as usize > total {
        return None;
    }
    let new_cut = new_cut_signed as usize;
    if cut_index == 0 && new_cut != 0 {
        return None;
    }
    if cut_index > 0 && new_cut <= cuts[cut_index - 1] {
        return None;
    }
    if cut_index + 1 < cuts.len() && new_cut >= cuts[cut_index + 1] {
        return None;
    }
    let mut new_cuts: Vec<usize> = Vec::new();
    let mut i: usize = 0;
    while i < cuts.len()
        invariant
            i <= cuts@.len(),
            new_cuts@.len() == i,
            forall|k: int|
                0 <= k < i ==> new_cuts@[k] == (if k == cut_index {
                    new_cut
                } else {
                    cuts@[k]
                }),
        decreases cuts@.len() - i,
    {
        new_cuts.push(if i == cut_index { new_cut } else { cuts[i] });
        i = i + 1;
    }
    assert(new_cuts@ =~= cuts@.update(cut_index as int, new_cut));
    proof {
        let old = cuts@;
        let c = new_cuts@;
        assert forall|a: int, b: int| 0 <= a < b < c.len() implies c[a] < c[b] by {
            if !strictly_increasing(old) {
                assert(old.len() <= 2);
            } else if a == cut_index {
                assert(old[a + 1] <= old[b]);
            } else if b == cut_index {
                assert(old[a] <= old[b - 1]);
            }
        }
    }
    let new_assignment = PageAssignment::new(new_cuts);
    proof {
        assert(cuts_wf(new_assignment@));
        assert(new_assignment@.last() <= total_of(groups@));
        crate::feasibility::lemma_feasibility_defined_within(new_assignment@, groups@, *params);
    }
    if check_feasibility(&new_assignment, groups, params).is_err() {
        return None;
    }
    Some(new_assignment)
}

/// Returns the largest shift worth trying: half the spread between the
/// maximum and the minimum number of photos per page, but at least 2.
pub fn max_perturbation_delta(params: &Params) -> (r: usize)
    requires
        params.photos_per_page_min <= params.photos_per_page_max,
    ensures
        r == (if (params.photos_per_page_max - params.photos_per_page_min) / 2 >= 2 {
            (params.photos_per_page_max - params.photos_per_page_min) / 2
        } else {
            2
        }),
{
    let range = params.photos_per_page_max - params.photos_per_page_min;
    let half = range / 2;
    if half >= 2 {
        half
    } else {
        2
    }
}

} // verus!
