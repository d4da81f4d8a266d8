//! Feasibility of page assignments: the hard constraints and the first one
//! that an assignment breaks.
use crate::model::{
    cuts_wf, group_end, group_len, group_start, is_group_of, nondecreasing, total_of, GroupInfo,
    PageAssignment, Params,
};
use std::ops::Range;
use vstd::prelude::*;

verus! {

/// A hard constraint that a page assignment breaks.
#[derive(Debug, Clone, Copy, PartialEq, Eq)]
pub enum ConstraintViolation {
    /// The number of pages lies outside `[page_min, page_max]`.
    PageCountOutOfRange { page_count: usize, page_min: usize, page_max: usize },
    /// A page holds fewer or more photos than allowed.
    PageSizeOutOfRange {
        page_index: usize,
        page_size: usize,
        photos_per_page_min: usize,
        photos_per_page_max: usize,
    },
    /// A page holds photos of more groups than allowed.
    TooManyGroupsOnPage { page_index: usize, group_count: usize, group_max_per_page: usize },
    /// A group that is large enough to be split has too few photos on a page.
    GroupMinViolation {
        page_index: usize,
        group_index: usize,
        group_size: usize,
        photos_in_group: usize,
        group_min_photos: usize,
    },
}

/// Number of photos that group `l` has in the photo range `[a, b)`.
pub open spec fn overlap(ends: Seq<usize>, a: int, b: int, l: int) -> int {
    let lo = if a > group_start(ends, l) { a } else { group_start(ends, l) };
    let hi = if b < group_end(ends, l) { b } else { group_end(ends, l) };
    if hi > lo { hi - lo } else { 0 }
}

/// The groups `l, l + 1, ...` that have photos in `[a, b)`, in order, each with
/// its number of photos there.
pub open spec fn groups_from(ends: Seq<usize>, a: int, b: int, l: int) -> Seq<(usize, usize)>
    decreases ends.len() - l,
{
    if l < 0 || l >= ends.len() {
        seq![]
    } else {
        let c = overlap(ends, a, b, l);
        let head = if c > 0 { seq![(l as usize, c as usize)] } else { seq![] };
        head + groups_from(ends, a, b, l + 1)
    }
}

/// The groups that have photos in `[a, b)`, in order, each with its number of
/// photos there.
pub open spec fn page_groups(ends: Seq<usize>, a: int, b: int) -> Seq<(usize, usize)> {
    groups_from(ends, a, b, 0)
}

/// Photos `[a, b)` form a page that respects every per-page constraint.
pub open spec fn page_feasible(params: Params, ends: Seq<usize>, a: int, b: int) -> bool {
    let gs = page_groups(ends, a, b);
    &&& params.photos_per_page_min <= b - a <= params.photos_per_page_max
    &&& gs.len() <= params.group_max_per_page
    &&& forall|k: int|
        0 <= k < gs.len() ==> {
            let l = #[trigger] gs[k].0 as int;
            let c = gs[k].1 as int;
            (c < group_len(ends, l) && group_len(ends, l) >= params.group_min_photos)
                ==> c >= params.group_min_photos
        }
}

/// The assignment `cuts` respects every hard constraint.
pub open spec fn assignment_feasible(cuts: Seq<usize>, ends: Seq<usize>, params: Params) -> bool {
    &&& params.page_min <= cuts.len() - 1 <= params.page_max
    &&& forall|j: int|
        0 <= j < cuts.len() - 1 ==> #[trigger] page_feasible(params, ends, cuts[j] as int, cuts[j + 1] as int)
}

/// The first group on page `j` (from its `k`-th group on) that breaks the g_min rule.
pub open spec fn group_min_violation(
    params: Params,
    ends: Seq<usize>,
    gs: Seq<(usize, usize)>,
    j: int,
    k: int,
) -> Option<ConstraintViolation>
    decreases gs.len() - k,
{
    if k < 0 || k >= gs.len() {
        None
    } else {
        let l = gs[k].0;
        let c = gs[k].1;
        let size = group_len(ends, l as int);
        if c < size && size >= params.group_min_photos && c < params.group_min_photos {
            Some(
                ConstraintViolation::GroupMinViolation {
                    page_index: j as usize,
                    group_index: l,
                    group_size: size as usize,
                    photos_in_group: c,
                    group_min_photos: params.group_min_photos,
                },
            )
        } else {
            group_min_violation(params, ends, gs, j, k + 1)
        }
    }
}

/// The first constraint that page `j` of `cuts` breaks, checked in the order:
/// page size, groups per page, g_min rule.
pub open spec fn page_violation(
    params: Params,
    ends: Seq<usize>,
    cuts: Seq<usize>,
    j: int,
) -> Option<ConstraintViolation> {
    let size = cuts[j + 1] - cuts[j];
    let gs = page_groups(ends, cuts[j] as int, cuts[j + 1] as int);
    if size < params.photos_per_page_min || size > params.photos_per_page_max {
        Some(
            ConstraintViolation::PageSizeOutOfRange {
                page_index: j as usize,
                page_size: size as usize,
                photos_per_page_min: params.photos_per_page_min,
                photos_per_page_max: params.photos_per_page_max,
            },
        )
    } else if gs.len() > params.group_max_per_page {
        Some(
            ConstraintViolation::TooManyGroupsOnPage {
                page_index: j as usize,
                group_count: gs.len() as usize,
                group_max_per_page: params.group_max_per_page,
            },
        )
    } else {
        group_min_violation(params, ends, gs, j, 0)
    }
}

/// The first page, from page `j` on, that breaks a constraint, with the
/// constraint it breaks.
pub open spec fn first_page_violation(
    params: Params,
    ends: Seq<usize>,
    cuts: Seq<usize>,
    j: int,
) -> Option<ConstraintViolation>
    decreases cuts.len() - 1 - j,
{
    if j < 0 || j >= cuts.len() - 1 {
        None
    } else {
        match page_violation(params, ends, cuts, j) {
            Some(v) => Some(v),
            None => first_page_violation(params, ends, cuts, j + 1),
        }
    }
}

/// Outcome of the feasibility check of `cuts`: `Ok` when every constraint
/// holds, otherwise the first constraint broken: the page count, then the
/// pages in order.
pub open spec fn feasibility(cuts: Seq<usize>, ends: Seq<usize>, params: Params) -> Result<
    (),
    ConstraintViolation,
> {
    let page_count = cuts.len() - 1;
    if page_count < params.page_min || page_count > params.page_max {
        Err(
            ConstraintViolation::PageCountOutOfRange {
                page_count: page_count as usize,
                page_min: params.page_min,
                page_max: params.page_max,
            },
        )
    } else {
        match first_page_violation(params, ends, cuts, 0) {
            Some(v) => Err(v),
            None => Ok(()),
        }
    }
}

/// Page `j` of `cuts` passes the size limits but holds photos past the last
/// photo of `ends`, so its groups cannot be looked up.
pub open spec fn page_out_of_photos(params: Params, ends: Seq<usize>, cuts: Seq<usize>, j: int) -> bool {
    let size = cuts[j + 1] - cuts[j];
    &&& params.photos_per_page_min <= size <= params.photos_per_page_max
    &&& cuts[j] < cuts[j + 1]
    &&& cuts[j + 1] > total_of(ends)
}

/// The feasibility check decides `cuts` before it would look up the groups
/// of photos past the last one: the page count is out of range, or every page
/// past the photos comes after a page that breaks a constraint.
pub open spec fn feasibility_defined(cuts: Seq<usize>, ends: Seq<usize>, params: Params) -> bool {
    let page_count = cuts.len() - 1;
    ||| page_count < params.page_min || page_count > params.page_max
    ||| forall|j: int|
        0 <= j < page_count && #[trigger] page_out_of_photos(params, ends, cuts, j) ==> exists|k: int|
            0 <= k < j && (#[trigger] page_violation(params, ends, cuts, k)) is Some
}

/// Cuts that stay within the photos never need groups past the last photo.
pub proof fn lemma_feasibility_defined_within(cuts: Seq<usize>, ends: Seq<usize>, params: Params)
    requires
        cuts_wf(cuts),
        cuts.last() <= total_of(ends),
    ensures
        feasibility_defined(cuts, ends, params),
{
    assert forall|j: int| 0 <= j < cuts.len() - 1 implies !#[trigger] page_out_of_photos(params, ends, cuts, j) by {
        assert(cuts[j + 1] <= cuts[cuts.len() - 1]);
    }
}

/// Groups before the group of photo `a` have no photos in `[a, b)`.
pub proof fn lemma_groups_from_skip_front(ends: Seq<usize>, a: int, b: int, l: int, first: int)
    requires
        nondecreasing(ends),
        0 <= l <= first,
        is_group_of(ends, a, first),
    ensures
        groups_from(ends, a, b, l) == groups_from(ends, a, b, first),
    decreases first - l,
{
    if l < first {
        assert(ends[l] <= a);
        assert(overlap(ends, a, b, l) == 0);
        lemma_groups_from_skip_front(ends, a, b, l + 1, first);
        assert(groups_from(ends, a, b, l) =~= groups_from(ends, a, b, l + 1));
    }
}

/// Groups after the group of photo `b - 1` have no photos in `[a, b)`.
pub proof fn lemma_groups_from_past_last(ends: Seq<usize>, a: int, b: int, l: int, last: int)
    requires
        nondecreasing(ends),
        last < l,
        is_group_of(ends, b - 1, last),
    ensures
        groups_from(ends, a, b, l) == Seq::<(usize, usize)>::empty(),
    decreases ends.len() - l,
{
    if 0 <= l < ends.len() {
        assert(ends[last] <= ends[l - 1]);
        assert(overlap(ends, a, b, l) == 0);
        lemma_groups_from_past_last(ends, a, b, l + 1, last);
        assert(groups_from(ends, a, b, l) =~= groups_from(ends, a, b, l + 1));
    }
}

/// Returns the groups that have photos on the page `page_range`, in order, each
/// with the number of its photos there.
pub fn groups_on_page_with_counts(page_range: Range<usize>, groups: &GroupInfo) -> (r: Vec<
    (usize, usize),
>)
    requires
        groups.wf(),
        page_range.start < page_range.end ==> page_range.end <= total_of(groups@),
    ensures
        r@ == (if page_range.start < page_range.end {
            page_groups(groups@, page_range.start as int, page_range.end as int)
        } else {
            Seq::<(usize, usize)>::empty()
        }),
{
    if page_range.start >= page_range.end {
        return Vec::new();
    }
    let first_photo = page_range.start;
    let last_photo = page_range.end - 1;

    let first_group = groups.group_of_photo(first_photo);
    let last_group = groups.group_of_photo(last_photo);
    let ghost ends = groups@;
    let ghost a = page_range.start as int;
    let ghost b = page_range.end as int;
    proof {
        lemma_groups_from_skip_front(ends, a, b, 0, first_group as int);
        if last_group < first_group {
            assert(ends[last_group as int] <= ends[first_group - 1]);
        }
    }

    let num_groups = groups.num_groups();
    let mut result: Vec<(usize, usize)> = Vec::new();
    let mut group_idx = first_group;
    while group_idx <= last_group
        invariant
            groups.wf(),
            ends == groups@,
            a == page_range.start,
            b == page_range.end,
            a < b <= total_of(ends),
            first_group <= group_idx <= last_group + 1,
            last_group < ends.len(),
            num_groups == ends.len(),
            is_group_of(ends, b - 1, last_group as int),
            result@ + groups_from(ends, a, b, group_idx as int) == groups_from(
                ends,
                a,
                b,
                first_group as int,
            ),
        decreases last_group + 1 - group_idx,
    {
        let group_range = groups.group_range(group_idx);
        let overlap_start = if page_range.start > group_range.start {
            page_range.start
        } else {
            group_range.start
        };
        let overlap_end = if page_range.end < group_range.end {
            page_range.end
        } else {
            group_range.end
        };
        let count = if overlap_end > overlap_start {
            overlap_end - overlap_start
        } else {
            0
        };
        let ghost before = result@;
        if count > 0 {
            result.push((group_idx, count));
        }
        proof {
            assert(count == overlap(ends, a, b, group_idx as int));
            assert(groups_from(ends, a, b, group_idx as int) == (if count > 0 {
                seq![(group_idx, count)]
            } else {
                seq![]
            }) + groups_from(ends, a, b, group_idx + 1));
            if count > 0 {
                assert(before + groups_from(ends, a, b, group_idx as int) =~= result@
                    + groups_from(ends, a, b, group_idx + 1));
            } else {
                assert(before + groups_from(ends, a, b, group_idx as int) =~= result@
                    + groups_from(ends, a, b, group_idx + 1));
            }
        }
        group_idx = group_idx + 1;
    }
    proof {
        lemma_groups_from_past_last(ends, a, b, group_idx as int, last_group as int);
        assert(result@ =~= result@ + groups_from(ends, a, b, group_idx as int));
    }
    result
}

/// When no group has photos in `[a, b)`, no group is listed.
pub proof fn lemma_groups_from_zero(ends: Seq<usize>, a: int, b: int, l: int)
    requires
        0 <= l,
        forall|k: int| l <= k < ends.len() ==> overlap(ends, a, b, k) == 0,
    ensures
        groups_from(ends, a, b, l) == Seq::<(usize, usize)>::empty(),
    decreases ends.len() - l,
{
    if l < ends.len() {
        lemma_groups_from_zero(ends, a, b, l + 1);
        assert(groups_from(ends, a, b, l) =~= groups_from(ends, a, b, l + 1));
    }
}

/// Every entry of `groups_from(.., l)` names a group from `l` on with its
/// (positive) number of photos in the range.
pub proof fn lemma_groups_from_entries(ends: Seq<usize>, a: int, b: int, l: int)
    requires
        0 <= l,
        ends.len() <= usize::MAX,
        a <= b <= usize::MAX,
    ensures
        forall|k: int|
            0 <= k < groups_from(ends, a, b, l).len() ==> {
                let e = #[trigger] groups_from(ends, a, b, l)[k];
                &&& l <= e.0 < ends.len()
                &&& e.1 > 0
                &&& e.1 == overlap(ends, a, b, e.0 as int)
            },
        forall|k1: int, k2: int|
            0 <= k1 < k2 < groups_from(ends, a, b, l).len() ==> groups_from(ends, a, b, l)[k1].0
                < groups_from(ends, a, b, l)[k2].0,
    decreases ends.len() - l,
{
    if l < ends.len() {
        lemma_groups_from_entries(ends, a, b, l + 1);
        let c = overlap(ends, a, b, l);
        assert(c <= b - a);
        let rest = groups_from(ends, a, b, l + 1);
        let head: Seq<(usize, usize)> = if c > 0 { seq![(l as usize, c as usize)] } else { seq![] };
        let all = groups_from(ends, a, b, l);
        assert(all == head + rest);
        assert forall|k: int| 0 <= k < all.len() implies {
            let e = #[trigger] all[k];
            &&& l <= e.0 < ends.len()
            &&& e.1 > 0
            &&& e.1 == overlap(ends, a, b, e.0 as int)
        } by {
            if k < head.len() {
                assert(all[k] == head[k]);
            } else {
                assert(all[k] == rest[k - head.len()]);
            }
        }
        assert forall|k1: int, k2: int| 0 <= k1 < k2 < all.len() implies all[k1].0 < all[k2].0 by {
            if k2 < head.len() {
            } else if k1 < head.len() {
                assert(all[k2] == rest[k2 - head.len()]);
            } else {
                assert(all[k1] == rest[k1 - head.len()]);
                assert(all[k2] == rest[k2 - head.len()]);
            }
        }
    }
}

/// Checks whether a page assignment satisfies all hard constraints.
///
/// Returns `Ok(())` if it does, or the first constraint it breaks: the page
/// count first, then for each page in order its size, its number of groups
/// and the g_min rule for each of its groups in order.
#[verifier::loop_isolation(false)]
pub fn check_feasibility(assignment: &PageAssignment, groups: &GroupInfo, params: &Params) -> (r:
    Result<(), ConstraintViolation>)
    requires
        assignment.wf(),
        groups.wf(),
        feasibility_defined(assignment@, groups@, *params),
    ensures
        r == feasibility(assignment@, groups@, *params),
{
    let ghost cuts = assignment@;
    let ghost ends = groups@;
    let page_count = assignment.num_pages();
    let num_groups = groups.num_groups();
    if page_count < params.page_min || page_count > params.page_max {
        return Err(
            ConstraintViolation::PageCountOutOfRange {
                page_count,
                page_min: params.page_min,
                page_max: params.page_max,
            },
        );
    }
    let mut page_idx: usize = 0;
    while page_idx < page_count
        invariant
            assignment.wf(),
            groups.wf(),
            cuts == assignment@,
            ends == groups@,
            feasibility_defined(cuts, ends, *params),
            params.page_min <= page_count <= params.page_max,
            page_count == cuts.len() - 1,
            page_idx <= page_count,
            forall|k: int| 0 <= k < page_idx ==> (#[trigger] page_violation(*params, ends, cuts, k)) is None,
            first_page_violation(*params, ends, cuts, 0) == first_page_violation(
                *params,
                ends,
                cuts,
                page_idx as int,
            ),
        decreases page_count - page_idx,
    {
        let page_size = assignment.page_size(page_idx);
        if page_size < params.photos_per_page_min || page_size > params.photos_per_page_max {
            return Err(
                ConstraintViolation::PageSizeOutOfRange {
                    page_index: page_idx,
                    page_size,
                    photos_per_page_min: params.photos_per_page_min,
                    photos_per_page_max: params.photos_per_page_max,
                },
            );
        }
        let page_range = assignment.page_range(page_idx);
        let ghost a = page_range.start as int;
        let ghost b = page_range.end as int;
        proof {
            if page_out_of_photos(*params, ends, cuts, page_idx as int) {
                let k = choose|k: int|
                    0 <= k < page_idx && (#[trigger] page_violation(*params, ends, cuts, k)) is Some;
                assert(page_violation(*params, ends, cuts, k) is None);
            }
        }
        let groups_on_page = groups_on_page_with_counts(page_range, groups);
        proof {
            if a >= b {
                assert(a == b);
                assert forall|l: int| 0 <= l < ends.len() implies overlap(ends, a, b, l) == 0 by {}
                lemma_groups_from_zero(ends, a, b, 0);
            }
            lemma_groups_from_entries(ends, a, b, 0);
        }
        let ghost gs = groups_on_page@;
        assert(gs == page_groups(ends, a, b));
        if groups_on_page.len() > params.group_max_per_page {
            return Err(
                ConstraintViolation::TooManyGroupsOnPage {
                    page_index: page_idx,
                    group_count: groups_on_page.len(),
                    group_max_per_page: params.group_max_per_page,
                },
            );
        }
        let mut k: usize = 0;
        while k < groups_on_page.len()
            invariant
                groups.wf(),
                ends == groups@,
                gs == groups_on_page@,
                k <= gs.len(),
                forall|i: int|
                    0 <= i < gs.len() ==> {
                        let e = #[trigger] gs[i];
                        &&& e.0 < ends.len()
                        &&& e.1 > 0
                    },
                group_min_violation(*params, ends, gs, page_idx as int, 0) == group_min_violation(
                    *params,
                    ends,
                    gs,
                    page_idx as int,
                    k as int,
                ),
            decreases gs.len() - k,
        {
            let (group_idx, photos_in_group) = groups_on_page[k];
            let group_size = groups.group_size(group_idx);
            let is_split = photos_in_group < group_size;
            if is_split && group_size >= params.group_min_photos && photos_in_group
                < params.group_min_photos {
                proof {
                    assert(page_violation(*params, ends, cuts, page_idx as int)
                        == group_min_violation(*params, ends, gs, page_idx as int, 0));
                }
                return Err(
                    ConstraintViolation::GroupMinViolation {
                        page_index: page_idx,
                        group_index: group_idx,
                        group_size,
                        photos_in_group,
                        group_min_photos: params.group_min_photos,
                    },
                );
            }
            k = k + 1;
        }
        assert(page_violation(*params, ends, cuts, page_idx as int) is None);
        page_idx = page_idx + 1;
    }
    Ok(())
}

/// The g_min rule holds for group entry `e` of a page.
pub open spec fn group_min_ok(params: Params, ends: Seq<usize>, e: (usize, usize)) -> bool {
    let size = group_len(ends, e.0 as int);
    (e.1 < size && size >= params.group_min_photos) ==> e.1 >= params.group_min_photos
}

proof fn lemma_group_min_violation_none(
    params: Params,
    ends: Seq<usize>,
    gs: Seq<(usize, usize)>,
    j: int,
    k: int,
)
    requires
        0 <= k <= gs.len(),
    ensures
        group_min_violation(params, ends, gs, j, k) is None <==> forall|i: int|
            k <= i < gs.len() ==> group_min_ok(params, ends, #[trigger] gs[i]),
    decreases gs.len() - k,
{
    if k < gs.len() {
        lemma_group_min_violation_none(params, ends, gs, j, k + 1);
    }
}

proof fn lemma_first_page_violation_none(params: Params, ends: Seq<usize>, cuts: Seq<usize>, j: int)
    requires
        0 <= j,
    ensures
        first_page_violation(params, ends, cuts, j) is None <==> forall|i: int|
            j <= i < cuts.len() - 1 ==> #[trigger] page_feasible(
                params,
                ends,
                cuts[i] as int,
                cuts[i + 1] as int,
            ),
    decreases cuts.len() - 1 - j,
{
    if j < cuts.len() - 1 {
        lemma_first_page_violation_none(params, ends, cuts, j + 1);
        let gs = page_groups(ends, cuts[j] as int, cuts[j + 1] as int);
        lemma_group_min_violation_none(params, ends, gs, j, 0);
        assert(page_violation(params, ends, cuts, j) is None <==> page_feasible(
            params,
            ends,
            cuts[j] as int,
            cuts[j + 1] as int,
        )) by {
            assert((forall|i: int| 0 <= i < gs.len() ==> group_min_ok(params, ends, #[trigger] gs[i]))
                <==> (forall|k: int|
                0 <= k < gs.len() ==> {
                    let l = #[trigger] gs[k].0 as int;
                    let c = gs[k].1 as int;
                    (c < group_len(ends, l) && group_len(ends, l) >= params.group_min_photos) ==> c
                        >= params.group_min_photos
                })) by {
                if forall|i: int| 0 <= i < gs.len() ==> group_min_ok(params, ends, #[trigger] gs[i]) {
                    assert forall|k: int| 0 <= k < gs.len() implies {
                        let l = #[trigger] gs[k].0 as int;
                        let c = gs[k].1 as int;
                        (c < group_len(ends, l) && group_len(ends, l) >= params.group_min_photos)
                            ==> c >= params.group_min_photos
                    } by {
                        assert(group_min_ok(params, ends, gs[k]));
                    }
                }
            }
        }
    }
}

/// The feasibility check accepts exactly the assignments that respect every
/// hard constraint: the page count lies in `[page_min, page_max]`, and every
/// page has between `photos_per_page_min` and `photos_per_page_max` photos, at
/// most `group_max_per_page` groups, and, of each group that it splits and that
/// has at least `group_min_photos` photos, at least `group_min_photos` photos.
pub proof fn lemma_feasibility_ok_iff_feasible(cuts: Seq<usize>, ends: Seq<usize>, params: Params)
    requires
        cuts.len() >= 1,
    ensures
        feasibility(cuts, ends, params) is Ok <==> assignment_feasible(cuts, ends, params),
{
    lemma_first_page_violation_none(params, ends, cuts, 0);
}

/// Sum of the photo counts of the entries of `gs`.
pub open spec fn counts_total(gs: Seq<(usize, usize)>) -> int
    decreases gs.len(),
{
    if gs.len() == 0 {
        0
    } else {
        gs[0].1 + counts_total(gs.drop_first())
    }
}

/// Number of photos that `[a, b)` shares with `[x, y)`.
pub open spec fn span(a: int, b: int, x: int, y: int) -> int {
    let lo = if a > x { a } else { x };
    let hi = if b < y { b } else { y };
    if hi > lo { hi - lo } else { 0 }
}

/// The counts listed from group `l` on add up to the photos that `[a, b)`
/// shares with the groups from `l` on.
proof fn lemma_groups_from_total(ends: Seq<usize>, a: int, b: int, l: int)
    requires
        nondecreasing(ends),
        0 <= l <= ends.len(),
    ensures
        counts_total(groups_from(ends, a, b, l)) == span(a, b, group_start(ends, l), total_of(ends)),
    decreases ends.len() - l,
{
    if l < ends.len() {
        lemma_groups_from_total(ends, a, b, l + 1);
        let rest = groups_from(ends, a, b, l + 1);
        let c = overlap(ends, a, b, l);
        assert(ends[l] <= ends.last());
        if l > 0 {
            assert(ends[l - 1] <= ends[l]);
        }
        if c > 0 {
            let gs = groups_from(ends, a, b, l);
            assert(gs =~= seq![(l as usize, c as usize)] + rest);
            assert(gs.drop_first() =~= rest);
        } else {
            assert(groups_from(ends, a, b, l) =~= rest);
        }
    }
}

/// The groups on a page account for all of its photos: their counts add up
/// to the page size.
pub proof fn lemma_page_group_counts_sum(ends: Seq<usize>, a: int, b: int)
    requires
        nondecreasing(ends),
        0 <= a <= b <= total_of(ends),
    ensures
        counts_total(page_groups(ends, a, b)) == b - a,
{
    lemma_groups_from_total(ends, a, b, 0);
}

} // verus!
