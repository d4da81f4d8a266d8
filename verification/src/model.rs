//! Data model of the page assignment problem.
//!
//! - `Params`: page count, page size and group limits, and their validation
//! - `GroupInfo`: consecutive photo groups, stored as cumulative group ends
//! - `PageAssignment`: a partition of the photo sequence into pages, stored as
//!   cut points
use std::ops::Range;
use vstd::prelude::*;

verus! {

/// `s` never decreases from one position to the next.
pub open spec fn nondecreasing(s: Seq<usize>) -> bool {
    forall|i: int, j: int| 0 <= i <= j < s.len() ==> s[i] <= s[j]
}

/// `s` strictly increases from one position to the next.
pub open spec fn strictly_increasing(s: Seq<usize>) -> bool {
    forall|i: int, j: int| 0 <= i < j < s.len() ==> s[i] < s[j]
}

/// Sum of the first `k` entries of `s`.
pub open spec fn prefix_sum(s: Seq<usize>, k: int) -> int
    decreases k,
{
    if k <= 0 {
        0
    } else {
        prefix_sum(s, k - 1) + s[k - 1]
    }
}

/// First photo index of group `l`, given the cumulative group ends.
pub open spec fn group_start(ends: Seq<usize>, l: int) -> int {
    if l == 0 {
        0
    } else {
        ends[l - 1] as int
    }
}

/// One past the last photo index of group `l`.
pub open spec fn group_end(ends: Seq<usize>, l: int) -> int {
    ends[l] as int
}

/// Number of photos in group `l`.
pub open spec fn group_len(ends: Seq<usize>, l: int) -> int {
    group_end(ends, l) - group_start(ends, l)
}

/// Total number of photos described by the cumulative group ends.
pub open spec fn total_of(ends: Seq<usize>) -> int {
    if ends.len() == 0 {
        0
    } else {
        ends.last() as int
    }
}

/// `l` is the group that holds photo `p`: the first group whose end lies past `p`.
pub open spec fn is_group_of(ends: Seq<usize>, p: int, l: int) -> bool {
    &&& 0 <= l < ends.len()
    &&& p < ends[l]
    &&& forall|k: int| 0 <= k < l ==> ends[k] <= p
}

/// The group that holds photo `p`.
pub open spec fn group_index_of(ends: Seq<usize>, p: int) -> int {
    choose|l: int| is_group_of(ends, p, l)
}

/// A photo lies in at most one group.
pub proof fn lemma_is_group_of_unique(ends: Seq<usize>, p: int, l1: int, l2: int)
    requires
        is_group_of(ends, p, l1),
        is_group_of(ends, p, l2),
    ensures
        l1 == l2,
{
    if l1 < l2 {
        assert(ends[l1] <= p);
    } else if l2 < l1 {
        assert(ends[l2] <= p);
    }
}

/// The group found for photo `p` is the one `group_index_of` names.
pub proof fn lemma_group_index_of(ends: Seq<usize>, p: int, l: int)
    requires
        is_group_of(ends, p, l),
    ensures
        group_index_of(ends, p) == l,
{
    lemma_is_group_of_unique(ends, p, l, group_index_of(ends, p));
}

/// Parameters of the page assignment: the page count, the photos per page and
/// how groups may be shared between pages.
#[derive(Debug, Clone, Copy, PartialEq, Eq)]
pub struct Params {
    /// Target number of pages.
    pub page_target: usize,
    /// Minimum number of pages.
    pub page_min: usize,
    /// Maximum number of pages.
    pub page_max: usize,
    /// Minimum photos per page.
    pub photos_per_page_min: usize,
    /// Maximum photos per page.
    pub photos_per_page_max: usize,
    /// Maximum number of groups on one page.
    pub group_max_per_page: usize,
    /// Minimum number of photos of a split group on one page.
    pub group_min_photos: usize,
}

/// A parameter set that cannot be used, with the values that break the rule.
#[derive(Debug, Clone, Copy, PartialEq, Eq)]
pub enum ValidationError {
    /// `page_min > page_max`.
    PageMinMaxInvalid { page_min: usize, page_max: usize },
    /// `page_target` lies outside `[page_min, page_max]`.
    PageTargetOutOfRange { page_target: usize, page_min: usize, page_max: usize },
    /// `photos_per_page_min > photos_per_page_max`.
    PhotosPerPageMinMaxInvalid { photos_per_page_min: usize, photos_per_page_max: usize },
    /// `photos_per_page_min < group_min_photos`.
    PhotosPerPageMinTooSmall { photos_per_page_min: usize, group_min_photos: usize },
    /// `group_max_per_page == 0`.
    GroupMaxPerPageZero,
    /// A weight of the objective is negative.
    NegativeWeights,
    /// The coverage cost threshold is not positive.
    MaxCoverageCostInvalid,
    /// The photos cannot fill `[page_min, page_max]` pages of
    /// `[photos_per_page_min, photos_per_page_max]` photos.
    PhotoCountInfeasible { total_photos: usize, min_capacity: usize, max_capacity: usize },
}

/// The rules on `params` that come before the capacity check all hold.
pub open spec fn count_rules_hold(params: Params, weights_nonnegative: bool, coverage_cost_positive: bool) -> bool {
    &&& params.page_min <= params.page_max
    &&& params.page_min <= params.page_target <= params.page_max
    &&& params.photos_per_page_min <= params.photos_per_page_max
    &&& params.photos_per_page_min >= params.group_min_photos
    &&& params.group_max_per_page != 0
    &&& weights_nonnegative
    &&& coverage_cost_positive
}

/// Outcome of the validation of `params` for `total_photos` photos: the first
/// rule broken, in the order page bounds, page target, page size bounds, page
/// size versus group minimum, groups per page, weights, coverage cost
/// threshold, photo count. `weights_nonnegative` and `coverage_cost_positive`
/// are the outcomes of the checks on the objective's real-valued settings.
pub open spec fn validation(
    params: Params,
    total_photos: int,
    weights_nonnegative: bool,
    coverage_cost_positive: bool,
) -> Result<(), ValidationError> {
    if params.page_min > params.page_max {
        Err(ValidationError::PageMinMaxInvalid { page_min: params.page_min, page_max: params.page_max })
    } else if params.page_target < params.page_min || params.page_target > params.page_max {
        Err(
            ValidationError::PageTargetOutOfRange {
                page_target: params.page_target,
                page_min: params.page_min,
                page_max: params.page_max,
            },
        )
    } else if params.photos_per_page_min > params.photos_per_page_max {
        Err(
            ValidationError::PhotosPerPageMinMaxInvalid {
                photos_per_page_min: params.photos_per_page_min,
                photos_per_page_max: params.photos_per_page_max,
            },
        )
    } else if params.photos_per_page_min < params.group_min_photos {
        Err(
            ValidationError::PhotosPerPageMinTooSmall {
                photos_per_page_min: params.photos_per_page_min,
                group_min_photos: params.group_min_photos,
            },
        )
    } else if params.group_max_per_page == 0 {
        Err(ValidationError::GroupMaxPerPageZero)
    } else if !weights_nonnegative {
        Err(ValidationError::NegativeWeights)
    } else if !coverage_cost_positive {
        Err(ValidationError::MaxCoverageCostInvalid)
    } else {
        let min_capacity = params.page_min * params.photos_per_page_min;
        let max_capacity = params.page_max * params.photos_per_page_max;
        if total_photos < min_capacity || total_photos > max_capacity {
            Err(
                ValidationError::PhotoCountInfeasible {
                    total_photos: total_photos as usize,
                    min_capacity: min_capacity as usize,
                    max_capacity: max_capacity as usize,
                },
            )
        } else {
            Ok(())
        }
    }
}

impl Params {
    /// Validates the parameters for `total_photos` photos: `Ok` when every
    /// rule holds, else the first rule broken (see `validation`).
    pub fn validate(&self, total_photos: usize, weights_nonnegative: bool, coverage_cost_positive: bool) -> (r: Result<(), ValidationError>)
        requires
            count_rules_hold(*self, weights_nonnegative, coverage_cost_positive) ==> (
            self.page_min * self.photos_per_page_min <= usize::MAX && self.page_max
                * self.photos_per_page_max <= usize::MAX),
        ensures
            r == validation(*self, total_photos as int, weights_nonnegative, coverage_cost_positive),
    {
        if self.page_min > self.page_max {
            return Err(ValidationError::PageMinMaxInvalid { page_min: self.page_min, page_max: self.page_max });
        }
        if self.page_target < self.page_min || self.page_target > self.page_max {
            return Err(
                ValidationError::PageTargetOutOfRange {
                    page_target: self.page_target,
                    page_min: self.page_min,
                    page_max: self.page_max,
                },
            );
        }
        if self.photos_per_page_min > self.photos_per_page_max {
            return Err(
                ValidationError::PhotosPerPageMinMaxInvalid {
                    photos_per_page_min: self.photos_per_page_min,
                    photos_per_page_max: self.photos_per_page_max,
                },
            );
        }
        if self.photos_per_page_min < self.group_min_photos {
            return Err(
                ValidationError::PhotosPerPageMinTooSmall {
                    photos_per_page_min: self.photos_per_page_min,
                    group_min_photos: self.group_min_photos,
                },
            );
        }
        if self.group_max_per_page == 0 {
            return Err(ValidationError::GroupMaxPerPageZero);
        }
        if !weights_nonnegative {
            return Err(ValidationError::NegativeWeights);
        }
        if !coverage_cost_positive {
            return Err(ValidationError::MaxCoverageCostInvalid);
        }
        let min_capacity = self.page_min * self.photos_per_page_min;
        let max_capacity = self.page_max * self.photos_per_page_max;
        if total_photos < min_capacity || total_photos > max_capacity {
            return Err(ValidationError::PhotoCountInfeasible { total_photos, min_capacity, max_capacity });
        }
        Ok(())
    }
}

/// Validation accepts exactly the parameters that keep every rule and whose
/// page and photo bounds leave room for `total_photos` photos.
pub proof fn lemma_validation_ok_iff(
    params: Params,
    total_photos: int,
    weights_nonnegative: bool,
    coverage_cost_positive: bool,
)
    ensures
        validation(params, total_photos, weights_nonnegative, coverage_cost_positive) is Ok <==> (
        count_rules_hold(params, weights_nonnegative, coverage_cost_positive) && params.page_min
            * params.photos_per_page_min <= total_photos <= params.page_max
            * params.photos_per_page_max),
{
}

/// Information about photo groups: group `l` holds the photos
/// `[group_start(l), group_end(l))`, groups follow each other without gaps.
#[derive(Debug, Clone)]
pub struct GroupInfo {
    /// Cumulative group sizes: `group_ends[i]` is the number of photos in groups `0..=i`.
    group_ends: Vec<usize>,
}

impl View for GroupInfo {
    type V = Seq<usize>;

    /// The cumulative group ends.
    closed spec fn view(&self) -> Seq<usize> {
        self.group_ends@
    }
}

impl GroupInfo {
    /// The cumulative group ends never decrease.
    pub open spec fn wf(&self) -> bool {
        nondecreasing(self@)
    }

    /// Creates a `GroupInfo` from the sizes of the groups, in order.
    pub fn new(group_sizes: &[usize]) -> (r: Self)
        requires
            prefix_sum(group_sizes@, group_sizes@.len() as int) <= usize::MAX,
        ensures
            r.wf(),
            r@.len() == group_sizes@.len(),
            forall|i: int| 0 <= i < group_sizes@.len() ==> r@[i] == prefix_sum(group_sizes@, i + 1),
    {
        let mut group_ends: Vec<usize> = Vec::new();
        let mut cumulative: usize = 0;
        let mut i: usize = 0;
        while i < group_sizes.len()
            invariant
                i <= group_sizes@.len(),
                prefix_sum(group_sizes@, group_sizes@.len() as int) <= usize::MAX,
                cumulative == prefix_sum(group_sizes@, i as int),
                group_ends@.len() == i,
                forall|k: int| 0 <= k < i ==> group_ends@[k] == prefix_sum(group_sizes@, k + 1),
            decreases group_sizes@.len() - i,
        {
            proof {
                lemma_prefix_sum_monotone(group_sizes@, i + 1, group_sizes@.len() as int);
            }
            cumulative = cumulative + group_sizes[i];
            group_ends.push(cumulative);
            i = i + 1;
        }
        let r = Self { group_ends };
        proof {
            assert forall|a: int, b: int| 0 <= a <= b < r@.len() implies r@[a] <= r@[b] by {
                lemma_prefix_sum_monotone(group_sizes@, a + 1, b + 1);
            }
        }
        r
    }

    /// Returns the number of groups.
    pub fn num_groups(&self) -> (r: usize)
        ensures
            r == self@.len(),
    {
        self.group_ends.len()
    }

    /// Returns the size of the group `group_index`.
    pub fn group_size(&self, group_index: usize) -> (r: usize)
        requires
            self.wf(),
            group_index < self@.len(),
        ensures
            r == group_len(self@, group_index as int),
    {
        if group_index == 0 {
            self.group_ends[0]
        } else {
            self.group_ends[group_index] - self.group_ends[group_index - 1]
        }
    }

    /// Returns the index of the group that holds the photo `photo_index`.
    pub fn group_of_photo(&self, photo_index: usize) -> (r: usize)
        requires
            self.wf(),
            photo_index < total_of(self@),
        ensures
            is_group_of(self@, photo_index as int, r as int),
            group_start(self@, r as int) <= photo_index < group_end(self@, r as int),
    {
        let mut l: usize = 0;
        while l < self.group_ends.len()
            invariant
                l <= self@.len(),
                self.wf(),
                photo_index < total_of(self@),
                forall|k: int| 0 <= k < l ==> self@[k] <= photo_index,
            decreases self@.len() - l,
        {
            if photo_index < self.group_ends[l] {
                return l;
            }
            l = l + 1;
        }
        proof {
            assert(self@[self@.len() - 1] <= photo_index);
        }
        l
    }

    /// Returns the range of photo indices of the group `group_index`.
    pub fn group_range(&self, group_index: usize) -> (r: Range<usize>)
        requires
            self.wf(),
            group_index < self@.len(),
        ensures
            r.start == group_start(self@, group_index as int),
            r.end == group_end(self@, group_index as int),
            r.start <= r.end,
    {
        let start = if group_index == 0 {
            0
        } else {
            self.group_ends[group_index - 1]
        };
        let end = self.group_ends[group_index];
        start..end
    }

    /// Returns the total number of photos.
    pub fn total_photos(&self) -> (r: usize)
        ensures
            r == total_of(self@),
    {
        if self.group_ends.len() == 0 {
            0
        } else {
            self.group_ends[self.group_ends.len() - 1]
        }
    }
}

/// The cut points of a page assignment: they start at 0 and never decrease.
pub open spec fn cuts_wf(cuts: Seq<usize>) -> bool {
    &&& cuts.len() >= 1
    &&& cuts[0] == 0
    &&& nondecreasing(cuts)
}

/// Page assignment: partitions a sequence of photos into pages.
///
/// Page `j` holds the photos `[cuts[j], cuts[j + 1])`.
#[derive(Debug, Clone, PartialEq, Eq)]
pub struct PageAssignment {
    /// Cut points: `cuts[0] = 0`, the last cut is the number of photos.
    cuts: Vec<usize>,
}

impl View for PageAssignment {
    type V = Seq<usize>;

    /// The cut points.
    closed spec fn view(&self) -> Seq<usize> {
        self.cuts@
    }
}

impl PageAssignment {
    /// The cut points start at 0 and never decrease; they increase strictly
    /// except in the one-page assignment of no photos.
    pub open spec fn wf(&self) -> bool {
        &&& cuts_wf(self@)
        &&& (strictly_increasing(self@) || self@.len() <= 2)
    }

    /// Number of pages of the assignment.
    pub open spec fn spec_num_pages(&self) -> int {
        self@.len() - 1
    }

    /// Creates a `PageAssignment` from cut points, which must start at 0 and
    /// increase strictly.
    pub fn new(cuts: Vec<usize>) -> (r: Self)
        requires
            cuts@.len() >= 1,
            cuts@[0] == 0,
            strictly_increasing(cuts@),
        ensures
            r.wf(),
            r@ == cuts@,
    {
        Self { cuts }
    }

    /// Creates an empty assignment: no pages, no photos.
    pub fn empty() -> (r: Self)
        ensures
            r.wf(),
            r@ == seq![0usize],
    {
        Self { cuts: vec![0] }
    }

    /// Creates an assignment with one page that holds all photos.
    pub fn single_page(total_photos: usize) -> (r: Self)
        ensures
            r.wf(),
            r@ == seq![0usize, total_photos],
    {
        Self { cuts: vec![0, total_photos] }
    }

    /// Returns the number of pages.
    pub fn num_pages(&self) -> (r: usize)
        requires
            self.wf(),
        ensures
            r == self.spec_num_pages(),
    {
        self.cuts.len() - 1
    }

    /// Returns the number of photos on the page `page_index`.
    pub fn page_size(&self, page_index: usize) -> (r: usize)
        requires
            self.wf(),
            page_index < self.spec_num_pages(),
        ensures
            r == self@[page_index + 1] - self@[page_index as int],
    {
        let len = self.cuts.len();
        assert(page_index + 1 < len);
        self.cuts[page_index + 1] - self.cuts[page_index]
    }

    /// Returns the range of photo indices on the page `page_index`.
    pub fn page_range(&self, page_index: usize) -> (r: Range<usize>)
        requires
            self.wf(),
            page_index < self.spec_num_pages(),
        ensures
            r.start == self@[page_index as int],
            r.end == self@[page_index + 1],
            r.start <= r.end,
    {
        let len = self.cuts.len();
        assert(page_index + 1 < len);
        self.cuts[page_index]..self.cuts[page_index + 1]
    }

    /// Returns the two pages next to the cut `cut_index`: the page that ends
    /// there and the page that starts there.
    pub fn affected_pages(&self, cut_index: usize) -> (r: (usize, usize))
        requires
            self.wf(),
            0 < cut_index < self@.len() - 1,
        ensures
            r.0 == cut_index - 1,
            r.1 == cut_index,
    {
        (cut_index - 1, cut_index)
    }

    /// Returns the total number of photos.
    pub fn total_photos(&self) -> (r: usize)
        requires
            self.wf(),
        ensures
            r == self@.last(),
    {
        self.cuts[self.cuts.len() - 1]
    }

    /// Returns all cut points.
    pub fn cuts(&self) -> (r: &[usize])
        ensures
            r@ == self@,
    {
        self.cuts.as_slice()
    }
}

/// Appending an entry leaves the earlier prefix sums unchanged.
proof fn lemma_prefix_sum_push_prefix(s: Seq<usize>, x: usize, k: int)
    requires
        0 <= k <= s.len(),
    ensures
        prefix_sum(s.push(x), k) == prefix_sum(s, k),
    decreases k,
{
    if k > 0 {
        lemma_prefix_sum_push_prefix(s, x, k - 1);
    }
}

/// Appending an entry leaves the earlier prefix sums unchanged and adds the
/// entry to the full sum.
pub proof fn lemma_prefix_sum_push(s: Seq<usize>, x: usize, k: int)
    requires
        0 <= k <= s.len(),
    ensures
        prefix_sum(s.push(x), k) == prefix_sum(s, k),
        prefix_sum(s.push(x), (s.len() + 1) as int) == prefix_sum(s, s.len() as int) + x,
{
    lemma_prefix_sum_push_prefix(s, x, k);
    lemma_prefix_sum_push_prefix(s, x, s.len() as int);
    assert(s.push(x)[s.len() as int] == x);
}

/// A `GroupInfo` built from group sizes gives those sizes back: group `i`
/// has `group_sizes[i]` photos, and all groups together hold their sum.
pub proof fn lemma_group_info_sizes(group_sizes: Seq<usize>, ends: Seq<usize>)
    requires
        ends.len() == group_sizes.len(),
        forall|i: int| 0 <= i < group_sizes.len() ==> ends[i] == prefix_sum(group_sizes, i + 1),
    ensures
        forall|i: int| 0 <= i < group_sizes.len() ==> #[trigger] group_len(ends, i) == group_sizes[i],
        total_of(ends) == prefix_sum(group_sizes, group_sizes.len() as int),
{
    assert forall|i: int| 0 <= i < group_sizes.len() implies #[trigger] group_len(ends, i) == group_sizes[i] by {
        assert(prefix_sum(group_sizes, i + 1) == prefix_sum(group_sizes, i) + group_sizes[i]);
        if i > 0 {
            assert(ends[i - 1] == prefix_sum(group_sizes, i));
        }
    }
}

/// Sum of the page sizes of the first `k` pages of the cut points `cuts`.
pub open spec fn pages_total(cuts: Seq<usize>, k: int) -> int
    decreases k,
{
    if k <= 0 {
        0
    } else {
        pages_total(cuts, k - 1) + (cuts[k] - cuts[k - 1])
    }
}

/// The pages of an assignment partition its photos: their sizes add up to
/// the total number of photos.
pub proof fn lemma_pages_partition_photos(cuts: Seq<usize>)
    requires
        cuts_wf(cuts),
    ensures
        pages_total(cuts, cuts.len() - 1) == cuts.last(),
{
    lemma_pages_total_prefix(cuts, cuts.len() - 1);
}

/// The first `k` pages hold the photos before cut `k`.
proof fn lemma_pages_total_prefix(cuts: Seq<usize>, k: int)
    requires
        cuts_wf(cuts),
        0 <= k < cuts.len(),
    ensures
        pages_total(cuts, k) == cuts[k],
    decreases k,
{
    if k > 0 {
        lemma_pages_total_prefix(cuts, k - 1);
    }
}

/// Prefix sums of unsigned entries never decrease.
pub proof fn lemma_prefix_sum_monotone(s: Seq<usize>, a: int, b: int)
    requires
        0 <= a <= b <= s.len(),
    ensures
        prefix_sum(s, a) <= prefix_sum(s, b),
    decreases b - a,
{
    if a < b {
        lemma_prefix_sum_monotone(s, a, b - 1);
    }
}

} // verus!
