//! The page assignment as a dynamic program over states `(i, m)`: the first
//! `i` photos placed on `m` pages. A decision is the size of the next page,
//! appended at photo `i`; the run ends once all photos are placed.
//!
//! This module holds the combinatorial part of the model: which page sizes
//! may follow a state, which final states are valid, and which cuts split a
//! group. The costs that rank the choices are not part of it.
use crate::feasibility::{
    assignment_feasible, feasibility, groups_from, lemma_feasibility_ok_iff_feasible,
    lemma_groups_from_entries, lemma_groups_from_past_last, lemma_groups_from_skip_front,
    lemma_groups_from_zero, overlap, page_feasible, page_groups,
};
use crate::model::{
    group_end, group_index_of, group_len, group_start, is_group_of, lemma_group_index_of,
    nondecreasing, prefix_sum, total_of, GroupInfo, PageAssignment, Params,
};
use vstd::prelude::*;

verus! {

/// Error of the dynamic program run by `solve_dp`.
#[derive(Debug, Clone, Copy, PartialEq, Eq)]
pub enum DpError {
    /// No assignment satisfies the constraints.
    Infeasible,
}

/// Error of the page assignment solver.
#[derive(Debug, Clone, Copy, PartialEq, Eq)]
pub enum PageAssignmentError {
    /// No assignment satisfies the constraints.
    Infeasible,
}

/// How a run of the dynamic program treats the total page count.
#[derive(Debug, Clone, Copy, PartialEq, Eq)]
pub enum RunMode {
    /// The page count is free within `[page_min, page_max]`.
    FreePageCount,
    /// The page count is fixed to the given value.
    FixedPageCount(usize),
}

/// The smaller of `a` and `b`.
pub open spec fn min_int(a: int, b: int) -> int {
    if a < b {
        a
    } else {
        b
    }
}

/// The larger of `a` and `b`.
pub open spec fn max_int(a: int, b: int) -> int {
    if a > b {
        a
    } else {
        b
    }
}

/// The splitting rule for group `l` on the page `[u, v)`: where the page holds
/// only a part of the group, the group must have at least `group_min_photos`
/// photos and so must the part.
pub open spec fn split_rule(params: Params, ends: Seq<usize>, u: int, v: int, l: int) -> bool {
    let fragment = min_int(v, group_end(ends, l)) - max_int(u, group_start(ends, l));
    let size = group_len(ends, l);
    fragment < size ==> (size >= params.group_min_photos && fragment >= params.group_min_photos)
}

/// The group constraints of the page `[u, v)` as the dynamic program checks
/// them: the groups from the first to the last photo's group number at most
/// `group_max_per_page`, and the splitting rule holds for the first and the
/// last of them (the groups between lie wholly on the page).
pub open spec fn interval_ok(params: Params, ends: Seq<usize>, u: int, v: int) -> bool {
    let first = group_index_of(ends, u);
    let last = group_index_of(ends, v - 1);
    &&& last - first + 1 <= params.group_max_per_page
    &&& split_rule(params, ends, u, v, first)
    &&& (last != first ==> split_rule(params, ends, u, v, last))
}

/// Page size `p` may follow the state `(i, m)` of a run over `n` photos that
/// may use at most `limit` pages.
pub open spec fn action_ok(
    params: Params,
    ends: Seq<usize>,
    n: int,
    limit: int,
    i: int,
    m: int,
    p: int,
) -> bool {
    &&& i < n
    &&& m < limit
    &&& params.photos_per_page_min <= p
    &&& p <= params.photos_per_page_max
    &&& p <= n - i
    &&& interval_ok(params, ends, i, i + p)
}

/// The largest page count of a run.
pub open spec fn limit_of(params: Params, mode: RunMode) -> int {
    match mode {
        RunMode::FreePageCount => params.page_max as int,
        RunMode::FixedPageCount(b) => b as int,
    }
}

/// The state `(i, m)` ends a run of `n` photos: all photos are placed, on a
/// page count within `[page_min, page_max]` (free runs) or on exactly the
/// fixed page count.
pub open spec fn terminal_ok(params: Params, mode: RunMode, n: int, i: int, m: int) -> bool {
    &&& i == n
    &&& match mode {
        RunMode::FreePageCount => params.page_min <= m <= params.page_max,
        RunMode::FixedPageCount(b) => m == b,
    }
}

/// The model of one run of the dynamic program over the photos of `groups`.
pub struct PageProblem<'a> {
    params: &'a Params,
    groups: &'a GroupInfo,
    n: usize,
    /// `photo_group[i]` is the group of photo `i`.
    photo_group: Vec<usize>,
    /// First photo of each group.
    group_start: Vec<usize>,
    /// One past the last photo of each group.
    group_end: Vec<usize>,
    mode: RunMode,
    page_limit: usize,
}

impl<'a> PageProblem<'a> {
    /// The parameters of the run.
    pub closed spec fn params(&self) -> Params {
        *self.params
    }

    /// The cumulative group ends of the photos.
    pub closed spec fn ends(&self) -> Seq<usize> {
        self.groups@
    }

    /// The number of photos.
    pub closed spec fn n(&self) -> int {
        self.n as int
    }

    /// The run mode.
    pub closed spec fn mode(&self) -> RunMode {
        self.mode
    }

    /// The tables agree with the groups.
    pub closed spec fn wf(&self) -> bool {
        &&& self.groups.wf()
        &&& self.n == total_of(self.groups@)
        &&& self.photo_group@.len() == self.n
        &&& forall|i: int| 0 <= i < self.n ==> is_group_of(self.groups@, i, #[trigger] self.photo_group@[i] as int)
        &&& self.group_start@.len() == self.groups@.len()
        &&& self.group_end@.len() == self.groups@.len()
        &&& forall|l: int| 0 <= l < self.groups@.len() ==> #[trigger] self.group_start@[l] == group_start(self.groups@, l)
        &&& forall|l: int| 0 <= l < self.groups@.len() ==> #[trigger] self.group_end@[l] == group_end(self.groups@, l)
        &&& self.page_limit == limit_of(*self.params, self.mode)
    }

    /// Precomputes the group of every photo and the photo range of every group.
    #[verifier::loop_isolation(false)]
    pub fn new(groups: &'a GroupInfo, params: &'a Params, mode: RunMode) -> (r: Self)
        requires
            groups.wf(),
        ensures
            r.wf(),
            r.params() == *params,
            r.ends() == groups@,
            r.n() == total_of(groups@),
            r.mode() == mode,
    {
        let n = groups.total_photos();
        let num_groups = groups.num_groups();
        let ghost ends = groups@;
        let mut photo_group: Vec<usize> = Vec::new();
        let mut group_start: Vec<usize> = Vec::new();
        let mut group_end: Vec<usize> = Vec::new();
        let mut l: usize = 0;
        while l < num_groups
            invariant
                groups.wf(),
                ends == groups@,
                num_groups == ends.len(),
                n == total_of(ends),
                l <= num_groups,
                photo_group@.len() == crate::model::group_start(ends, l as int),
                l < num_groups ==> crate::model::group_start(ends, l as int) <= n,
                forall|i: int| 0 <= i < photo_group@.len() ==> is_group_of(ends, i, #[trigger] photo_group@[i] as int),
                group_start@.len() == l,
                group_end@.len() == l,
                forall|k: int| 0 <= k < l ==> #[trigger] group_start@[k] == crate::model::group_start(ends, k),
                forall|k: int| 0 <= k < l ==> #[trigger] group_end@[k] == crate::model::group_end(ends, k),
            decreases num_groups - l,
        {
            let range = groups.group_range(l);
            group_start.push(range.start);
            group_end.push(range.end);
            let mut photo = range.start;
            while photo < range.end
                invariant
                    groups.wf(),
                    ends == groups@,
                    l < ends.len(),
                    range.start == crate::model::group_start(ends, l as int),
                    range.end == crate::model::group_end(ends, l as int),
                    range.start <= photo <= range.end,
                    photo_group@.len() == photo,
                    forall|i: int| 0 <= i < photo_group@.len() ==> is_group_of(ends, i, #[trigger] photo_group@[i] as int),
                decreases range.end - photo,
            {
                proof {
                    assert forall|k: int| 0 <= k < l implies ends[k] <= photo by {
                        assert(ends[k] <= crate::model::group_start(ends, l as int));
                    }
                }
                photo_group.push(l);
                photo = photo + 1;
            }
            l = l + 1;
        }
        proof {
            if num_groups == 0 {
                assert(n == 0);
            } else {
                assert(photo_group@.len() == ends[num_groups - 1]);
            }
        }
        let page_limit = match mode {
            RunMode::FreePageCount => params.page_max,
            RunMode::FixedPageCount(b) => b,
        };
        PageProblem { params, groups, n, photo_group, group_start, group_end, mode, page_limit }
    }

    /// Checks the splitting rule for group `l` on the page `[u, v)`; `l` is the
    /// group of the first or of the last photo of the page.
    fn split_ok(&self, u: usize, v: usize, l: usize) -> (r: bool)
        requires
            self.wf(),
            u <= v <= self.n,
            u < self.n,
            is_group_of(self.ends(), u as int, l as int) || (v > 0 && is_group_of(
                self.ends(),
                v - 1,
                l as int,
            ) && u <= v - 1),
        ensures
            r == split_rule(self.params(), self.ends(), u as int, v as int, l as int),
    {
        let ghost ends = self.groups@;
        let end = self.group_end[l];
        let start = self.group_start[l];
        let hi = if v < end {
            v
        } else {
            end
        };
        let lo = if u > start {
            u
        } else {
            start
        };
        proof {
            if !is_group_of(ends, u as int, l as int) {
                assert(group_start(ends, l as int) <= v - 1) by {
                    if l > 0 {
                        assert(ends[l - 1] <= v - 1);
                    }
                }
            } else {
                if l > 0 {
                    assert(ends[l - 1] <= u);
                }
            }
        }
        let fragment = hi - lo;
        let size = self.groups.group_size(l);
        if fragment < size {
            size >= self.params.group_min_photos && fragment >= self.params.group_min_photos
        } else {
            true
        }
    }

    /// Checks the group constraints of the page `[u, v)`.
    fn interval_feasible(&self, u: usize, v: usize) -> (r: bool)
        requires
            self.wf(),
            u < self.n,
            v <= self.n,
            u < v || (0 < u && u == v && group_index_of(self.ends(), u - 1) == group_index_of(
                self.ends(),
                u as int,
            )),
        ensures
            r == interval_ok(self.params(), self.ends(), u as int, v as int),
    {
        let ghost ends = self.groups@;
        let first = self.photo_group[u];
        let last = self.photo_group[v - 1];
        let num_groups = self.group_end.len();
        proof {
            assert(last < num_groups);
            lemma_group_index_of(ends, u as int, first as int);
            lemma_group_index_of(ends, v - 1, last as int);
            if last < first {
                assert(ends[last as int] <= ends[first - 1]);
            }
        }
        if last - first + 1 > self.params.group_max_per_page {
            return false;
        }
        if !self.split_ok(u, v, first) {
            return false;
        }
        if last != first && !self.split_ok(u, v, last) {
            return false;
        }
        true
    }

    /// The page sizes that may follow the state `(i, m)`, in increasing order:
    /// those in `[photos_per_page_min, photos_per_page_max]` that fit the
    /// photos left and the group constraints. None once all photos are
    /// placed or the page limit is reached.
    pub fn actions(&self, i: usize, m: usize) -> (r: Vec<usize>)
        requires
            self.wf(),
            (i < self.n() && m < limit_of(self.params(), self.mode())
                && self.params().photos_per_page_min == 0) ==> (i > 0 && group_index_of(
                self.ends(),
                i - 1,
            ) == group_index_of(self.ends(), i as int)),
        ensures
            forall|a: int, b: int| 0 <= a < b < r@.len() ==> r@[a] < r@[b],
            forall|p: usize|
                #![trigger r@.contains(p)]
                #![trigger action_ok(self.params(), self.ends(), self.n(), limit_of(self.params(), self.mode()), i as int, m as int, p as int)]
                r@.contains(p) <==> action_ok(
                    self.params(),
                    self.ends(),
                    self.n(),
                    limit_of(self.params(), self.mode()),
                    i as int,
                    m as int,
                    p as int,
                ),
    {
        let ghost params = *self.params;
        let ghost ends = self.groups@;
        let ghost limit = limit_of(params, self.mode);
        let mut result: Vec<usize> = Vec::new();
        if i >= self.n || m >= self.page_limit {
            return result;
        }
        let p_min = self.params.photos_per_page_min;
        let p_max = if self.params.photos_per_page_max < self.n - i {
            self.params.photos_per_page_max
        } else {
            self.n - i
        };
        let mut p = p_min;
        let mut done = p_min > p_max;
        while !done
            invariant
                self.wf(),
                params == self.params(),
                ends == self.ends(),
                limit == limit_of(self.params(), self.mode()),
                i < self.n,
                m < limit,
                p_min == params.photos_per_page_min,
                p_max == min_int(params.photos_per_page_max as int, self.n - i),
                p_min <= p,
                !done ==> p <= p_max,
                done ==> p >= p_max,
                (params.photos_per_page_min == 0) ==> (i > 0 && group_index_of(ends, i - 1)
                    == group_index_of(ends, i as int)),
                forall|a: int, b: int| 0 <= a < b < result@.len() ==> result@[a] < result@[b],
                forall|k: int| 0 <= k < result@.len() ==> result@[k] < p || (done && result@[k] <= p),
                forall|q: usize|
                    #![trigger result@.contains(q)]
                    result@.contains(q) <==> (action_ok(params, ends, self.n as int, limit, i as int, m as int, q as int)
                        && (q < p || (done && q <= p))),
            decreases p_max - p + (if done { 0int } else { 1int }),
        {
            let ghost before = result@;
            if self.interval_feasible(i, i + p) {
                result.push(p);
            }
            proof {
                assert forall|q: usize| #[trigger] result@.contains(q) implies (action_ok(params, ends, self.n as int, limit, i as int, m as int, q as int)
                    && q <= p) by {
                    if q != p {
                        assert(before.contains(q));
                    }
                }
                assert forall|q: usize| action_ok(params, ends, self.n as int, limit, i as int, m as int, q as int)
                    && q <= p implies #[trigger] result@.contains(q) by {
                    if q < p {
                        assert(before.contains(q));
                        let k = choose|k: int| 0 <= k < before.len() && before[k] == q;
                        assert(result@[k] == q);
                    } else {
                        assert(result@[result@.len() - 1] == q);
                    }
                }
            }
            if p == p_max {
                done = true;
            } else {
                p = p + 1;
            }
        }
        proof {
            assert forall|q: usize|
                #![trigger result@.contains(q)]
                #![trigger action_ok(params, ends, self.n as int, limit, i as int, m as int, q as int)]
                result@.contains(q) <==> action_ok(params, ends, self.n as int, limit, i as int, m as int, q as int) by {
                if action_ok(params, ends, self.n as int, limit, i as int, m as int, q as int) {
                    assert(q <= p_max);
                }
            }
        }
        result
    }

    /// The state `(i, m)` ends the run: all photos are placed on a valid page
    /// count.
    pub fn is_terminal(&self, i: usize, m: usize) -> (r: bool)
        requires
            self.wf(),
        ensures
            r == terminal_ok(self.params(), self.mode(), self.n(), i as int, m as int),
    {
        if i != self.n {
            return false;
        }
        match self.mode {
            RunMode::FreePageCount => self.params.page_min <= m && m <= self.params.page_max,
            RunMode::FixedPageCount(b) => m == b,
        }
    }

    /// The cut at photo `c` lies strictly inside a group.
    pub fn cut_splits_group(&self, c: usize) -> (r: bool)
        requires
            self.wf(),
            c == 0 || c < self.n(),
        ensures
            r == (c > 0 && group_index_of(self.ends(), c - 1) == group_index_of(self.ends(), c as int)),
    {
        if c == 0 {
            return false;
        }
        let before = self.photo_group[c - 1];
        let after = self.photo_group[c];
        proof {
            lemma_group_index_of(self.groups@, c - 1, before as int);
            lemma_group_index_of(self.groups@, c as int, after as int);
        }
        before == after
    }

    /// The largest page count this run may reach.
    pub fn page_limit(&self) -> (r: usize)
        requires
            self.wf(),
        ensures
            r == limit_of(self.params(), self.mode()),
    {
        self.page_limit
    }
}

/// The cut points reached from the state `(0, 0)` by the page sizes `ds`.
pub open spec fn decision_cuts(ds: Seq<usize>) -> Seq<usize> {
    Seq::new((ds.len() + 1) as nat, |k: int| prefix_sum(ds, k) as usize)
}

/// Turns the page sizes of a run, front to back, into cut points.
pub fn cuts_from_decisions(decisions: &[usize]) -> (r: PageAssignment)
    requires
        forall|k: int| 0 <= k < decisions@.len() ==> decisions@[k] > 0,
        prefix_sum(decisions@, decisions@.len() as int) <= usize::MAX,
    ensures
        r.wf(),
        r@ == decision_cuts(decisions@),
{
    let ghost ds = decisions@;
    let mut cuts: Vec<usize> = Vec::new();
    cuts.push(0);
    let mut acc: usize = 0;
    let mut k: usize = 0;
    while k < decisions.len()
        invariant
            ds == decisions@,
            forall|t: int| 0 <= t < ds.len() ==> ds[t] > 0,
            prefix_sum(ds, ds.len() as int) <= usize::MAX,
            k <= ds.len(),
            acc == prefix_sum(ds, k as int),
            cuts@.len() == k + 1,
            forall|t: int| 0 <= t <= k ==> #[trigger] cuts@[t] == prefix_sum(ds, t),
            forall|a: int, b: int| 0 <= a < b < cuts@.len() ==> cuts@[a] < cuts@[b],
        decreases ds.len() - k,
    {
        proof {
            crate::model::lemma_prefix_sum_monotone(ds, k + 1, ds.len() as int);
        }
        let ghost old_cuts = cuts@;
        acc = acc + decisions[k];
        cuts.push(acc);
        proof {
            assert(old_cuts[k as int] == prefix_sum(ds, k as int));
            assert forall|a: int, b: int| 0 <= a < b < cuts@.len() implies cuts@[a] < cuts@[b] by {
                if b == k + 1 && a < k {
                    assert(old_cuts[a] < old_cuts[k as int]);
                }
            }
        }
        k = k + 1;
    }
    assert(cuts@ =~= decision_cuts(ds));
    PageAssignment::new(cuts)
}

/// Every photo before the total lies in some group.
pub proof fn lemma_group_index_of_exists(ends: Seq<usize>, p: int)
    requires
        0 <= p < total_of(ends),
    ensures
        is_group_of(ends, p, group_index_of(ends, p)),
{
    lemma_group_below(ends, p, ends.len() - 1);
}

/// If photo `p` lies before the end of group `k`, it lies in group `k` or an
/// earlier one.
proof fn lemma_group_below(ends: Seq<usize>, p: int, k: int)
    requires
        0 <= k < ends.len(),
        p < ends[k],
    ensures
        is_group_of(ends, p, group_index_of(ends, p)),
    decreases k,
{
    if forall|j: int| 0 <= j < k ==> ends[j] <= p {
        assert(is_group_of(ends, p, k));
    } else {
        let j = choose|j: int| 0 <= j < k && !(ends[j] <= p);
        lemma_group_below(ends, p, j);
    }
}

/// From group `l` on, at most `last - l + 1` groups have photos on the page
/// `[a, b)`, where `last` is the group of its last photo.
proof fn lemma_groups_from_len(ends: Seq<usize>, a: int, b: int, l: int, last: int)
    requires
        nondecreasing(ends),
        0 <= l <= last + 1,
        is_group_of(ends, b - 1, last),
    ensures
        groups_from(ends, a, b, l).len() <= last - l + 1,
    decreases last + 1 - l,
{
    if l == last + 1 {
        lemma_groups_from_past_last(ends, a, b, l, last);
    } else {
        lemma_groups_from_len(ends, a, b, l + 1, last);
    }
}

/// A page that the dynamic program admits respects every per-page
/// constraint of the feasibility check.
pub proof fn lemma_interval_page_feasible(params: Params, ends: Seq<usize>, u: int, v: int)
    requires
        nondecreasing(ends),
        ends.len() <= usize::MAX,
        0 <= u <= v <= total_of(ends),
        params.photos_per_page_min <= v - u <= params.photos_per_page_max,
        u < v ==> interval_ok(params, ends, u, v),
    ensures
        page_feasible(params, ends, u, v),
{
    if u == v {
        lemma_groups_from_zero(ends, u, v, 0);
    } else {
        let first = group_index_of(ends, u);
        let last = group_index_of(ends, v - 1);
        lemma_group_index_of_exists(ends, u);
        lemma_group_index_of_exists(ends, v - 1);
        lemma_groups_from_skip_front(ends, u, v, 0, first);
        lemma_groups_from_entries(ends, u, v, first);
        if last < first {
            assert(ends[last] <= ends[first - 1]);
        }
        lemma_groups_from_len(ends, u, v, first, last);
        let gs = page_groups(ends, u, v);
        assert forall|k: int| 0 <= k < gs.len() implies {
            let l = #[trigger] gs[k].0 as int;
            let c = gs[k].1 as int;
            (c < group_len(ends, l) && group_len(ends, l) >= params.group_min_photos) ==> c
                >= params.group_min_photos
        } by {
            let l = gs[k].0 as int;
            let c = gs[k].1 as int;
            assert(c == overlap(ends, u, v, l));
            if l > last {
                assert(ends[last] <= ends[l - 1]);
            }
            if first < l < last {
                assert(ends[first] <= ends[l - 1]);
                assert(ends[l] <= v - 1);
            }
            if l > 0 {
                assert(ends[l - 1] <= ends[l]);
            }
        }
    }
}

/// The pages sizes `ds` lead from `(0, 0)` to a terminal state of a run, each
/// an admissible decision in the state it is taken in.
pub open spec fn path_ok(params: Params, mode: RunMode, ends: Seq<usize>, ds: Seq<usize>) -> bool {
    &&& forall|t: int|
        0 <= t < ds.len() ==> #[trigger] action_ok(
            params,
            ends,
            total_of(ends),
            limit_of(params, mode),
            prefix_sum(ds, t),
            t,
            ds[t] as int,
        )
    &&& terminal_ok(params, mode, total_of(ends), prefix_sum(ds, ds.len() as int), ds.len() as int)
}

/// Prefix sums along a path stay within the photos.
proof fn lemma_path_prefix_bounded(params: Params, mode: RunMode, ends: Seq<usize>, ds: Seq<usize>, t: int)
    requires
        path_ok(params, mode, ends, ds),
        0 <= t <= ds.len(),
    ensures
        prefix_sum(ds, t) <= total_of(ends),
    decreases ds.len() - t,
{
    if t < ds.len() {
        lemma_path_prefix_bounded(params, mode, ends, ds, t + 1);
        assert(action_ok(params, ends, total_of(ends), limit_of(params, mode), prefix_sum(ds, t), t, ds[t] as int));
    }
}

/// Soundness of the dynamic program: the cuts of every run that reaches a
/// terminal state place all photos and pass the feasibility check, for a
/// free page count and for a fixed page count within `[page_min, page_max]`.
pub proof fn lemma_dp_path_feasible(params: Params, mode: RunMode, ends: Seq<usize>, ds: Seq<usize>)
    requires
        nondecreasing(ends),
        ends.len() <= usize::MAX,
        path_ok(params, mode, ends, ds),
        mode matches RunMode::FixedPageCount(b) ==> params.page_min <= b <= params.page_max,
    ensures
        feasibility(decision_cuts(ds), ends, params) is Ok,
        decision_cuts(ds).last() == total_of(ends),
{
    let cuts = decision_cuts(ds);
    let n = total_of(ends);
    assert forall|j: int| 0 <= j < cuts.len() - 1 implies #[trigger] page_feasible(
        params,
        ends,
        cuts[j] as int,
        cuts[j + 1] as int,
    ) by {
        lemma_path_prefix_bounded(params, mode, ends, ds, j);
        lemma_path_prefix_bounded(params, mode, ends, ds, j + 1);
        crate::model::lemma_prefix_sum_monotone(ds, 0, j);
        crate::model::lemma_prefix_sum_monotone(ds, j, j + 1);
        assert(action_ok(params, ends, n, limit_of(params, mode), prefix_sum(ds, j), j, ds[j] as int));
        assert(prefix_sum(ds, j + 1) == prefix_sum(ds, j) + ds[j]);
        lemma_interval_page_feasible(params, ends, prefix_sum(ds, j), prefix_sum(ds, j + 1));
    }
    assert(assignment_feasible(cuts, ends, params));
    lemma_feasibility_ok_iff_feasible(cuts, ends, params);
}

/// The outcome of the page assignment solver: the exact assignment where the
/// dynamic program found one, else the start solution for `photos`, so that
/// the solver never fails. The start solution places all photos.
pub fn solve_or_fallback(
    exact: Result<PageAssignment, PageAssignmentError>,
    params: &Params,
    photos: &[crate::photo::Photo],
) -> (r: Result<PageAssignment, PageAssignmentError>)
    requires
        exact is Err ==> params.photos_per_page_min <= params.photos_per_page_max,
    ensures
        exact is Ok ==> r == exact,
        exact is Err ==> (r matches Ok(a) && a@ == crate::start_solution::start_solution(
            *params,
            crate::photo::group_keys(photos@),
        ) && a@.last() == photos@.len() && a.wf()),
{
    match exact {
        Ok(assignment) => Ok(assignment),
        Err(_) => Ok(crate::start_solution::create_start_solution(params, photos)),
    }
}


/// Completeness of the admissible page sizes: a size `p` within the page
/// limits and the photos left is an action of `(i, m)` whenever the page
/// `[i, i + p)` spans at most `group_max_per_page` groups and each of its two
/// boundary groups either lies wholly on the page or is a group of at least
/// `group_min_photos` photos with at least `group_min_photos` of them on the
/// page. In particular a group wholly on a page never makes it inadmissible.
pub proof fn lemma_actions_complete(
    params: Params,
    ends: Seq<usize>,
    limit: int,
    i: int,
    m: int,
    p: int,
)
    requires
        nondecreasing(ends),
        0 <= i,
        1 <= p,
        i + p <= total_of(ends),
        m < limit,
        params.photos_per_page_min <= p <= params.photos_per_page_max,
        ({
            let first = group_index_of(ends, i);
            let last = group_index_of(ends, i + p - 1);
            &&& last - first + 1 <= params.group_max_per_page
            &&& forall|l: int|
                (l == first || l == last) ==> ((group_start(ends, l) >= i && group_end(ends, l)
                    <= i + p) || (group_len(ends, l) >= params.group_min_photos && overlap(
                    ends,
                    i,
                    i + p,
                    l,
                ) >= params.group_min_photos))
        }),
    ensures
        action_ok(params, ends, total_of(ends), limit, i, m, p),
{
    let first = group_index_of(ends, i);
    let last = group_index_of(ends, i + p - 1);
    lemma_group_index_of_exists(ends, i);
    lemma_group_index_of_exists(ends, i + p - 1);
    if first > 0 {
        assert(ends[first - 1] <= ends[first]);
    }
    if last > 0 {
        assert(ends[last - 1] <= ends[last]);
    }
    assert((first == first || first == last));
    assert((last == first || last == last));
}

/// A free run ends exactly when all photos are placed on a page count within
/// `[page_min, page_max]`; a fixed run exactly on its fixed page count.
pub proof fn lemma_terminal_states(params: Params, n: int, i: int, m: int, b: usize)
    ensures
        terminal_ok(params, RunMode::FreePageCount, n, i, m) <==> (i == n && params.page_min <= m
            && m <= params.page_max),
        terminal_ok(params, RunMode::FixedPageCount(b), n, i, m) <==> (i == n && m == b),
{
}

/// Every page count that the feasibility rules admit ends a free run: the
/// cuts of a feasible assignment of all photos lead to a terminal state.
pub proof fn lemma_feasible_count_is_terminal(cuts: Seq<usize>, ends: Seq<usize>, params: Params)
    requires
        cuts.len() >= 1,
        cuts.last() == total_of(ends),
        assignment_feasible(cuts, ends, params),
    ensures
        terminal_ok(params, RunMode::FreePageCount, total_of(ends), cuts.last() as int, cuts.len() - 1),
{
}

} // verus!
