//! The greedy start solution: photos are sorted by group and cut into pages of
//! about the average remaining size, moving a cut to a group boundary where a
//! group would otherwise be split into a too small part, and keeping every
//! page within the page size limits wherever the photos allow it.
use crate::model::{
    group_end, group_index_of, group_start, is_group_of, lemma_group_index_of, GroupInfo,
    PageAssignment, Params,
};
use crate::photo::{
    group_keys, group_le, key_le, lemma_key_le_total_ordering, lemma_run_ends, run_ends, Photo,
};
use vstd::prelude::*;
use vstd::relations::{sorted_by, total_ordering};

verus! {

/// The photos sorted by group name; photos of one group keep their order.
fn sort_by_group(photos: &[Photo]) -> (r: Vec<Photo>)
    ensures
        group_keys(r@) == group_keys(photos@).sort_by(key_le()),
{
    proof {
        lemma_key_le_total_ordering();
    }
    let ghost leq = key_le();
    let mut sorted: Vec<Photo> = Vec::new();
    let mut i: usize = 0;
    assert(group_keys(sorted@) =~= group_keys(photos@.take(0)));
    while i < photos.len()
        invariant
            i <= photos@.len(),
            total_ordering(leq),
            leq == key_le(),
            sorted_by(group_keys(sorted@), leq),
            group_keys(sorted@).to_multiset() == group_keys(photos@.take(i as int)).to_multiset(),
        decreases photos@.len() - i,
    {
        let photo = &photos[i];
        let ghost keys = group_keys(sorted@);
        let ghost key = photo.group@;
        let mut j: usize = 0;
        while j < sorted.len() && group_le(&sorted[j].group, &photo.group)
            invariant
                j <= sorted@.len(),
                keys == group_keys(sorted@),
                key == photo.group@,
                leq == key_le(),
                forall|k: int| 0 <= k < j ==> #[trigger] leq(keys[k], key),
            decreases sorted@.len() - j,
        {
            j = j + 1;
        }
        proof {
            if j < keys.len() {
                assert(!leq(keys[j as int], key));
                assert(leq(key, keys[j as int]));
                assert forall|k: int| j <= k < keys.len() implies #[trigger] leq(key, keys[k]) by {
                    if k > j {
                        assert(leq(keys[j as int], keys[k]));
                    }
                }
            }
        }
        sorted.insert(j, photo.clone());
        proof {
            let new_keys = keys.insert(j as int, key);
            assert(group_keys(sorted@) =~= new_keys);
            assert forall|a: int, b: int| 0 <= a < b < new_keys.len() implies #[trigger] leq(
                new_keys[a],
                new_keys[b],
            ) by {
                if b < j {
                    assert(leq(keys[a], keys[b]));
                } else if b == j {
                    assert(leq(keys[a], key));
                } else if a < j {
                    assert(leq(keys[a], keys[b - 1]));
                } else if a == j {
                    assert(leq(key, keys[b - 1]));
                } else {
                    assert(leq(keys[a - 1], keys[b - 1]));
                }
            }
            assert(group_keys(photos@.take(i + 1)) =~= group_keys(photos@.take(i as int)).push(
                key,
            ));
            vstd::seq_lib::to_multiset_insert(keys, j as int, key);
            vstd::seq_lib::to_multiset_build(group_keys(photos@.take(i as int)), key);
            assert(group_keys(photos@.take(i as int)).push(key).to_multiset() == group_keys(
                photos@.take(i as int),
            ).to_multiset().insert(key));
        }
        i = i + 1;
    }
    proof {
        assert(photos@.take(photos@.len() as int) =~= photos@);
        let keys = group_keys(photos@);
        keys.lemma_sort_by_ensures(leq);
        vstd::seq_lib::lemma_sorted_unique(group_keys(sorted@), keys.sort_by(leq), leq);
    }
    sorted
}

/// `x` clamped to `[lo, hi]`.
pub open spec fn clamp(x: int, lo: int, hi: int) -> int {
    if x < lo {
        lo
    } else if x > hi {
        hi
    } else {
        x
    }
}

/// `a / b`, rounded up.
pub open spec fn ceil_div(a: int, b: int) -> int {
    if a % b == 0 {
        a / b
    } else {
        a / b + 1
    }
}

/// A page size clamped to the limits of `params` and to the `left` photos.
pub open spec fn bounded_page_size(params: Params, size: int, left: int) -> int {
    let c = clamp(size, params.photos_per_page_min as int, params.photos_per_page_max as int);
    if c < left {
        c
    } else {
        left
    }
}

/// Number of photos on page `j` of the cut points `cuts`.
pub open spec fn page_len(cuts: Seq<usize>, j: int) -> int {
    cuts[j + 1] - cuts[j]
}

/// The smallest size a page may have: `photos_per_page_min`, and at least one
/// photo.
pub open spec fn min_page(params: Params) -> int {
    if params.photos_per_page_min >= 1 {
        params.photos_per_page_min as int
    } else {
        1
    }
}

/// `r` photos fill exactly `k` pages whose sizes lie within the limits.
pub open spec fn fills_pages(params: Params, r: int, k: int) -> bool {
    &&& 1 <= k
    &&& k * min_page(params) <= r
    &&& r <= k * params.photos_per_page_max
}

/// `r` photos can be laid out on at most `b` pages whose sizes lie within the
/// limits.
pub open spec fn fits(params: Params, r: int, b: int) -> bool {
    r == 0 || exists|k: int| k <= b && #[trigger] fills_pages(params, r, k)
}

/// `q` is a page size within the limits that leaves the other `left - q`
/// photos room on at most `b` further pages.
pub open spec fn size_ok(params: Params, left: int, b: int, q: int) -> bool {
    &&& min_page(params) <= q
    &&& q <= params.photos_per_page_max
    &&& q <= left
    &&& fits(params, left - q, b)
}

/// The largest good page size (`size_ok`) at or below `q`.
pub open spec fn first_ok_down(params: Params, left: int, b: int, q: int) -> Option<int>
    decreases q - min_page(params) + 1,
{
    if q < min_page(params) {
        None
    } else if size_ok(params, left, b, q) {
        Some(q)
    } else {
        first_ok_down(params, left, b, q - 1)
    }
}

/// The smallest good page size (`size_ok`) in `[q, hi]`.
pub open spec fn first_ok_up(params: Params, left: int, b: int, q: int, hi: int) -> Option<int>
    decreases hi - q + 1,
{
    if q > hi {
        None
    } else if size_ok(params, left, b, q) {
        Some(q)
    } else {
        first_ok_up(params, left, b, q + 1, hi)
    }
}

/// The page size taken for the proposed size `p`, with `left` photos to place
/// and at most `b` pages after this one: the good size (`size_ok`) nearest to
/// `p`, the larger one below `p` first, or `p` itself (at least one photo)
/// when no size is good.
pub open spec fn fitted_size(params: Params, left: int, b: int, p: int) -> int {
    let hi = if (params.photos_per_page_max as int) < left {
        params.photos_per_page_max as int
    } else {
        left
    };
    let start = if p < hi {
        p
    } else {
        hi
    };
    match first_ok_down(params, left, b, start) {
        Some(q) => q,
        None => match first_ok_up(params, left, b, start + 1, hi) {
            Some(q) => q,
            None => if p >= 1 {
                p
            } else {
                1
            },
        },
    }
}

/// The number of pages still allowed after the page that follows `ncuts` cuts.
pub open spec fn page_budget(params: Params, ncuts: int) -> int {
    if params.page_max > ncuts {
        params.page_max - ncuts
    } else {
        0
    }
}

/// The cut that follows the cut `pos` when `ncuts` cuts are placed, for the
/// cumulative group ends `ends` of `n` sorted photos.
///
/// The proposed page size spreads the remaining photos over the remaining
/// target pages (at least one). Where the page would end inside a group, the
/// cut moves to the end of that group if fewer than `group_min_photos` of it
/// would be left over, or back to its start (if that lies on this page) if
/// fewer than `group_min_photos` of it would be on this page while enough are
/// left over. The size is then clamped to the limits and fitted so that the
/// remaining photos can still be laid out (`fitted_size`).
pub open spec fn start_next_cut(params: Params, ends: Seq<usize>, n: int, pos: int, ncuts: int) -> int {
    pos + fitted_size(params, n - pos, page_budget(params, ncuts), proposed_size(params, ends, n, pos, ncuts))
}

/// A size found by the downward search is good.
proof fn lemma_first_ok_down_sound(params: Params, left: int, b: int, q: int)
    ensures
        first_ok_down(params, left, b, q) matches Some(r) ==> size_ok(params, left, b, r),
    decreases q - min_page(params) + 1,
{
    if q >= min_page(params) && !size_ok(params, left, b, q) {
        lemma_first_ok_down_sound(params, left, b, q - 1);
    }
}

/// A size found by the upward search is good.
proof fn lemma_first_ok_up_sound(params: Params, left: int, b: int, q: int, hi: int)
    ensures
        first_ok_up(params, left, b, q, hi) matches Some(r) ==> size_ok(params, left, b, r),
    decreases hi - q + 1,
{
    if q <= hi && !size_ok(params, left, b, q) {
        lemma_first_ok_up_sound(params, left, b, q + 1, hi);
    }
}

/// The downward search finds a size whenever some good size lies below `q`.
proof fn lemma_first_ok_down_complete(params: Params, left: int, b: int, q: int, w: int)
    requires
        w <= q,
        size_ok(params, left, b, w),
    ensures
        first_ok_down(params, left, b, q) is Some,
    decreases q - min_page(params) + 1,
{
    if !size_ok(params, left, b, q) {
        lemma_first_ok_down_complete(params, left, b, q - 1, w);
    }
}

/// The upward search finds a size whenever some good size lies in `[q, hi]`.
proof fn lemma_first_ok_up_complete(params: Params, left: int, b: int, q: int, hi: int, w: int)
    requires
        q <= w <= hi,
        size_ok(params, left, b, w),
    ensures
        first_ok_up(params, left, b, q, hi) is Some,
    decreases hi - q + 1,
{
    if !size_ok(params, left, b, q) {
        lemma_first_ok_up_complete(params, left, b, q + 1, hi, w);
    }
}

/// The fitted size places at least one photo and no more than are left; it
/// is good wherever some size is good.
proof fn lemma_fitted_size(params: Params, left: int, b: int, p: int)
    requires
        1 <= left,
        p <= left,
    ensures
        1 <= fitted_size(params, left, b, p) <= left,
        size_ok(params, left, b, fitted_size(params, left, b, p)) || fitted_size(params, left, b, p)
            == (if p >= 1 {
            p
        } else {
            1
        }),
        (exists|w: int| #[trigger] size_ok(params, left, b, w)) ==> size_ok(
            params,
            left,
            b,
            fitted_size(params, left, b, p),
        ),
{
    let hi = if (params.photos_per_page_max as int) < left {
        params.photos_per_page_max as int
    } else {
        left
    };
    let start = if p < hi {
        p
    } else {
        hi
    };
    lemma_first_ok_down_sound(params, left, b, start);
    lemma_first_ok_up_sound(params, left, b, start + 1, hi);
    if exists|w: int| #[trigger] size_ok(params, left, b, w) {
        let w = choose|w: int| #[trigger] size_ok(params, left, b, w);
        if w <= start {
            lemma_first_ok_down_complete(params, left, b, start, w);
        } else {
            lemma_first_ok_up_complete(params, left, b, start + 1, hi, w);
        }
    }
}

/// The average page size at `pos` with `ncuts` cuts placed: the photos left
/// spread over the target pages left (at least one), clamped to the limits.
pub open spec fn average_page_size(params: Params, n: int, pos: int, ncuts: int) -> int {
    let left = n - pos;
    let pages_left = if params.page_target >= ncuts {
        params.page_target - ncuts + 1
    } else {
        1
    };
    bounded_page_size(params, ceil_div(left, pages_left), left)
}

/// The page proposed at `pos` before it is fitted: the average size, moved
/// to a group boundary where needed, clamped to the limits.
pub open spec fn proposed_size(params: Params, ends: Seq<usize>, n: int, pos: int, ncuts: int) -> int {
    let left = n - pos;
    let size = average_page_size(params, n, pos, ncuts);
    let cand = pos + size;
    let gmin = params.group_min_photos as int;
    let proposal = if 0 < cand < n {
        let g = group_index_of(ends, cand - 1);
        let s = group_start(ends, g);
        let e = group_end(ends, g);
        let r_curr = cand - s;
        let r_rem = e - cand;
        if r_rem > 0 && r_rem < gmin && r_curr > 0 {
            e - pos
        } else if r_rem >= gmin && r_curr > 0 && r_curr < gmin && s >= pos {
            s - pos
        } else {
            size
        }
    } else {
        size
    };
    bounded_page_size(params, proposal, left)
}

/// Where the average page would end inside a group with fewer than
/// `group_min_photos` of it left over, the page takes the rest of that
/// group: the proposal is the photos up to the group's end, and the cut
/// lands at the group's end whenever that page size is a good one.
pub proof fn lemma_cut_takes_rest_of_group(
    params: Params,
    ends: Seq<usize>,
    n: int,
    pos: int,
    ncuts: int,
    g: int,
)
    requires
        crate::model::nondecreasing(ends),
        crate::model::total_of(ends) == n,
        0 <= pos < n,
        0 < pos + average_page_size(params, n, pos, ncuts) < n,
        is_group_of(ends, pos + average_page_size(params, n, pos, ncuts) - 1, g),
        0 < group_end(ends, g) - (pos + average_page_size(params, n, pos, ncuts))
            < params.group_min_photos,
    ensures
        proposed_size(params, ends, n, pos, ncuts) == bounded_page_size(
            params,
            group_end(ends, g) - pos,
            n - pos,
        ),
        (params.photos_per_page_min <= group_end(ends, g) - pos <= params.photos_per_page_max
            && size_ok(params, n - pos, page_budget(params, ncuts), group_end(ends, g) - pos))
            ==> start_next_cut(params, ends, n, pos, ncuts) == group_end(ends, g),
{
    let cand = pos + average_page_size(params, n, pos, ncuts);
    lemma_group_index_of(ends, cand - 1, g);
    if g > 0 {
        assert(ends[g - 1] <= cand - 1);
    }
    assert(group_end(ends, g) <= n) by {
        assert(ends[g] <= ends[ends.len() - 1]);
    }
    let e = group_end(ends, g);
    let left = n - pos;
    let b = page_budget(params, ncuts);
    if params.photos_per_page_min <= e - pos <= params.photos_per_page_max && size_ok(params, left, b, e - pos) {
        assert(proposed_size(params, ends, n, pos, ncuts) == e - pos);
        assert(first_ok_down(params, left, b, e - pos) == Some(e - pos));
    }
}

/// Where the average page would end inside a group with fewer than
/// `group_min_photos` of it on the page but at least that many left over,
/// and the group starts on this page, the page stops before that group: the
/// proposal is the photos up to the group's start, and the cut lands there
/// whenever that page size is a good one.
pub proof fn lemma_cut_leaves_group_whole(
    params: Params,
    ends: Seq<usize>,
    n: int,
    pos: int,
    ncuts: int,
    g: int,
)
    requires
        crate::model::nondecreasing(ends),
        crate::model::total_of(ends) == n,
        0 <= pos < n,
        0 < pos + average_page_size(params, n, pos, ncuts) < n,
        is_group_of(ends, pos + average_page_size(params, n, pos, ncuts) - 1, g),
        group_end(ends, g) - (pos + average_page_size(params, n, pos, ncuts))
            >= params.group_min_photos,
        (pos + average_page_size(params, n, pos, ncuts)) - group_start(ends, g)
            < params.group_min_photos,
        group_start(ends, g) >= pos,
    ensures
        proposed_size(params, ends, n, pos, ncuts) == bounded_page_size(
            params,
            group_start(ends, g) - pos,
            n - pos,
        ),
        (params.photos_per_page_min <= group_start(ends, g) - pos <= params.photos_per_page_max
            && size_ok(params, n - pos, page_budget(params, ncuts), group_start(ends, g) - pos))
            ==> start_next_cut(params, ends, n, pos, ncuts) == group_start(ends, g),
{
    let cand = pos + average_page_size(params, n, pos, ncuts);
    lemma_group_index_of(ends, cand - 1, g);
    if g > 0 {
        assert(ends[g - 1] <= cand - 1);
    }
    let st = group_start(ends, g);
    let left = n - pos;
    let b = page_budget(params, ncuts);
    if params.photos_per_page_min <= st - pos <= params.photos_per_page_max && size_ok(params, left, b, st - pos) {
        assert(proposed_size(params, ends, n, pos, ncuts) == st - pos);
        assert(first_ok_down(params, left, b, st - pos) == Some(st - pos));
    }
}

/// The next cut lies after `pos` and at most at `n`. Its page stays within
/// `photos_per_page_max` (where that is at least one), reaches
/// `photos_per_page_min` unless it takes all photos left, and is a good size
/// (`size_ok`) wherever one exists.
pub proof fn lemma_next_cut_advances(params: Params, ends: Seq<usize>, n: int, pos: int, ncuts: int)
    requires
        0 <= pos < n,
    ensures
        pos < start_next_cut(params, ends, n, pos, ncuts) <= n,
        ({
            let f = start_next_cut(params, ends, n, pos, ncuts) - pos;
            &&& params.photos_per_page_min <= params.photos_per_page_max
                && params.photos_per_page_max >= 1 ==> f <= params.photos_per_page_max
            &&& params.photos_per_page_min <= params.photos_per_page_max ==> (f
                >= params.photos_per_page_min || f == n - pos)
            &&& (exists|w: int| #[trigger] size_ok(params, n - pos, page_budget(params, ncuts), w))
                ==> size_ok(params, n - pos, page_budget(params, ncuts), f)
        }),
{
    let left = n - pos;
    let p = proposed_size(params, ends, n, pos, ncuts);
    assert(start_next_cut(params, ends, n, pos, ncuts) == pos + fitted_size(
        params,
        left,
        page_budget(params, ncuts),
        p,
    ));
    lemma_fitted_size(params, left, page_budget(params, ncuts), p);
}

/// Where `left` photos fit on at most `b + 1` pages, some page size leaves the
/// rest room on at most `b` pages.
proof fn lemma_fits_step(params: Params, left: int, b: int)
    requires
        params.photos_per_page_min <= params.photos_per_page_max,
        left > 0,
        fits(params, left, b + 1),
    ensures
        b >= 0,
        exists|q: int| #[trigger] size_ok(params, left, b, q),
{
    let lo = min_page(params);
    let hi = params.photos_per_page_max as int;
    let k = choose|k: int| k <= b + 1 && #[trigger] fills_pages(params, left, k);
    assert(lo <= k * lo) by (nonlinear_arith)
        requires
            k >= 1,
            lo >= 1,
    ;
    assert(lo <= hi) by (nonlinear_arith)
        requires
            k >= 1,
            k * lo <= left,
            left <= k * hi,
            lo >= 1,
    ;
    if k == 1 {
        assert(k * lo == lo && k * hi == hi);
        assert(fits(params, 0, b));
        assert(size_ok(params, left, b, left));
    } else {
        let q = if left - (k - 1) * hi > lo {
            left - (k - 1) * hi
        } else {
            lo
        };
        assert((k - 1) * lo == k * lo - lo && (k - 1) * hi == k * hi - hi) by (nonlinear_arith);
        assert((k - 1) * lo <= (k - 1) * hi) by (nonlinear_arith)
            requires
                k >= 1,
                lo <= hi,
        ;
        assert(fills_pages(params, left - q, k - 1));
        assert(fits(params, left - q, b));
        assert(size_ok(params, left, b, q));
    }
}

/// The cut points of the start solution, continued from the cuts `cuts`
/// until all `n` photos are placed.
pub open spec fn start_cuts_from(params: Params, ends: Seq<usize>, n: usize, cuts: Seq<usize>) -> Seq<usize>
    decreases n - cuts.last(),
{
    if cuts.len() == 0 || cuts.last() >= n {
        cuts
    } else {
        let next = start_next_cut(params, ends, n as int, cuts.last() as int, cuts.len() as int);
        proof {
            lemma_next_cut_advances(params, ends, n as int, cuts.last() as int, cuts.len() as int);
            assert(cuts.push(next as usize).last() == next);
        }
        start_cuts_from(params, ends, n, cuts.push(next as usize))
    }
}

/// The cut points of the start solution for photos with the group names
/// `keys`: the photos are sorted by group name first.
pub open spec fn start_solution(params: Params, keys: Seq<Seq<char>>) -> Seq<usize> {
    if keys.len() == 0 {
        seq![0usize]
    } else {
        start_cuts_from(params, run_ends(keys.sort_by(key_le())), keys.len() as usize, seq![0usize])
    }
}

/// What every start solution for `n` photos looks like: the cuts run from 0
/// to `n` and increase strictly, no page holds more than
/// `photos_per_page_max` photos (where that is at least one), and every page
/// but the last holds at least `photos_per_page_min`.
pub open spec fn start_shape(params: Params, n: int, cuts: Seq<usize>) -> bool {
    &&& cuts.len() >= 1
    &&& cuts[0] == 0
    &&& cuts.last() == n
    &&& crate::model::strictly_increasing(cuts)
    &&& forall|j: int|
        0 <= j < cuts.len() - 1 && params.photos_per_page_max >= 1 ==> #[trigger] page_len(cuts, j)
            <= params.photos_per_page_max
    &&& forall|j: int| 0 <= j < cuts.len() - 2 ==> #[trigger] page_len(cuts, j) >= params.photos_per_page_min
}

/// The cuts keep every limit of `params`: at most `page_max` pages, each with
/// between `photos_per_page_min` and `photos_per_page_max` photos.
pub open spec fn within_limits(params: Params, cuts: Seq<usize>) -> bool {
    &&& cuts.len() - 1 <= params.page_max
    &&& forall|j: int|
        0 <= j < cuts.len() - 1 ==> params.photos_per_page_min <= #[trigger] page_len(cuts, j)
            <= params.photos_per_page_max
}

/// Continuing a partial start solution keeps its shape.
proof fn lemma_start_cuts_from_shape(params: Params, ends: Seq<usize>, n: usize, cuts: Seq<usize>)
    requires
        params.photos_per_page_min <= params.photos_per_page_max,
        cuts.len() >= 1,
        cuts[0] == 0,
        crate::model::strictly_increasing(cuts),
        cuts.last() <= n,
        forall|j: int|
            0 <= j < cuts.len() - 1 && params.photos_per_page_max >= 1 ==> #[trigger] page_len(cuts, j)
                <= params.photos_per_page_max,
        forall|j: int| 0 <= j < cuts.len() - 2 ==> #[trigger] page_len(cuts, j) >= params.photos_per_page_min,
        cuts.len() >= 2 && cuts.last() < n ==> page_len(cuts, cuts.len() - 2) >= params.photos_per_page_min,
    ensures
        start_shape(params, n as int, start_cuts_from(params, ends, n, cuts)),
    decreases n - cuts.last(),
{
    if cuts.last() < n {
        let pos = cuts.last() as int;
        let next = start_next_cut(params, ends, n as int, pos, cuts.len() as int);
        lemma_next_cut_advances(params, ends, n as int, pos, cuts.len() as int);
        let c2 = cuts.push(next as usize);
        assert(c2.last() == next);
        assert forall|j: int| 0 <= j < c2.len() - 1 && params.photos_per_page_max >= 1 implies #[trigger] page_len(c2, j)
            <= params.photos_per_page_max by {
            if j < cuts.len() - 1 {
                assert(page_len(c2, j) == page_len(cuts, j));
            } else {
                assert(page_len(c2, j) == next - pos);
            }
        }
        assert forall|j: int| 0 <= j < c2.len() - 2 implies #[trigger] page_len(c2, j) >= params.photos_per_page_min by {
            assert(page_len(c2, j) == page_len(cuts, j));
        }
        assert(crate::model::strictly_increasing(c2));
        lemma_start_cuts_from_shape(params, ends, n, c2);
    }
}

/// Continuing a partial start solution whose rest fits the remaining pages
/// keeps every limit.
proof fn lemma_start_cuts_from_limits(params: Params, ends: Seq<usize>, n: usize, cuts: Seq<usize>)
    requires
        params.photos_per_page_min <= params.photos_per_page_max,
        cuts.len() >= 1,
        cuts.last() <= n,
        cuts.len() - 1 <= params.page_max,
        fits(params, n - cuts.last(), params.page_max - (cuts.len() - 1)),
        forall|j: int|
            0 <= j < cuts.len() - 1 ==> params.photos_per_page_min <= #[trigger] page_len(cuts, j)
                <= params.photos_per_page_max,
    ensures
        within_limits(params, start_cuts_from(params, ends, n, cuts)),
    decreases n - cuts.last(),
{
    if cuts.last() < n {
        let pos = cuts.last() as int;
        let ncuts = cuts.len() as int;
        let left = n - pos;
        let next = start_next_cut(params, ends, n as int, pos, ncuts);
        let b = params.page_max - ncuts;
        lemma_fits_step(params, left, b);
        assert(page_budget(params, ncuts) == b);
        lemma_next_cut_advances(params, ends, n as int, pos, ncuts);
        let c2 = cuts.push(next as usize);
        assert(c2.last() == next);
        assert forall|j: int| 0 <= j < c2.len() - 1 implies params.photos_per_page_min <= #[trigger] page_len(
            c2,
            j,
        ) <= params.photos_per_page_max by {
            if j < cuts.len() - 1 {
                assert(page_len(c2, j) == page_len(cuts, j));
            } else {
                assert(page_len(c2, j) == next - pos);
            }
        }
        lemma_start_cuts_from_limits(params, ends, n, c2);
    }
}

/// `size` clamped to the page limits of `params`, then to `left`.
fn clamp_page_size(params: &Params, size: usize, left: usize) -> (r: usize)
    requires
        params.photos_per_page_min <= params.photos_per_page_max,
    ensures
        r == bounded_page_size(*params, size as int, left as int),
{
    let clamped = if size < params.photos_per_page_min {
        params.photos_per_page_min
    } else if size > params.photos_per_page_max {
        params.photos_per_page_max
    } else {
        size
    };
    if clamped < left {
        clamped
    } else {
        left
    }
}

/// Decides whether `r` photos fit on at most `b` pages within the limits.
fn fits_exec(params: &Params, r: usize, b: usize) -> (res: bool)
    ensures
        res == fits(*params, r as int, b as int),
{
    if r == 0 {
        return true;
    }
    let lo = if params.photos_per_page_min >= 1 {
        params.photos_per_page_min
    } else {
        1
    };
    let mut found = false;
    let mut j: usize = 0;
    while j < b
        invariant
            j <= b,
            r > 0,
            lo == min_page(*params),
            found <==> exists|k: int| k <= j && #[trigger] fills_pages(*params, r as int, k),
        decreases b - j,
    {
        let k = j + 1;
        let lo_ok = match k.checked_mul(lo) {
            Some(x) => x <= r,
            None => false,
        };
        let hi_ok = match k.checked_mul(params.photos_per_page_max) {
            Some(y) => r <= y,
            None => true,
        };
        proof {
            assert((lo_ok && hi_ok) == fills_pages(*params, r as int, k as int));
        }
        if lo_ok && hi_ok {
            found = true;
        }
        j = k;
    }
    found
}

/// Decides `size_ok` for the size `q`.
fn size_ok_exec(params: &Params, left: usize, b: usize, q: usize) -> (res: bool)
    ensures
        res == size_ok(*params, left as int, b as int, q as int),
{
    let lo = if params.photos_per_page_min >= 1 {
        params.photos_per_page_min
    } else {
        1
    };
    lo <= q && q <= params.photos_per_page_max && q <= left && fits_exec(params, left - q, b)
}

/// Computes `fitted_size` for the proposed size `p`.
fn fit_page_size(params: &Params, left: usize, b: usize, p: usize) -> (r: usize)
    requires
        1 <= left,
        p <= left,
    ensures
        r == fitted_size(*params, left as int, b as int, p as int),
{
    let ghost pr = *params;
    let lo = if params.photos_per_page_min >= 1 {
        params.photos_per_page_min
    } else {
        1
    };
    let hi = if params.photos_per_page_max < left {
        params.photos_per_page_max
    } else {
        left
    };
    let start = if p < hi {
        p
    } else {
        hi
    };
    let mut q = start;
    while q >= lo
        invariant
            pr == *params,
            lo == min_page(pr),
            lo >= 1,
            q <= start,
            hi == (if params.photos_per_page_max < left {
                params.photos_per_page_max
            } else {
                left
            }),
            start == (if p < hi {
                p
            } else {
                hi
            }),
            first_ok_down(pr, left as int, b as int, start as int) == first_ok_down(
                pr,
                left as int,
                b as int,
                q as int,
            ),
        decreases q,
    {
        if size_ok_exec(params, left, b, q) {
            assert(first_ok_down(pr, left as int, b as int, q as int) == Some(q as int));
            return q;
        }
        q = q - 1;
    }
    if start < hi {
        let count = hi - start;
        let mut i: usize = 0;
        while i < count
            invariant
                pr == *params,
                count == hi - start,
                i <= count,
                hi == (if params.photos_per_page_max < left {
                    params.photos_per_page_max
                } else {
                    left
                }),
                start == (if p < hi {
                    p
                } else {
                    hi
                }),
                first_ok_down(pr, left as int, b as int, start as int) is None,
                first_ok_up(pr, left as int, b as int, start + 1, hi as int) == first_ok_up(
                    pr,
                    left as int,
                    b as int,
                    start + 1 + i,
                    hi as int,
                ),
            decreases count - i,
        {
            let q = start + 1 + i;
            if size_ok_exec(params, left, b, q) {
                assert(first_ok_up(pr, left as int, b as int, q as int, hi as int) == Some(q as int));
                return q;
            }
            i = i + 1;
        }
    }
    if p >= 1 {
        p
    } else {
        1
    }
}

/// Computes `start_next_cut` for the photos described by `group_info`.
fn next_cut_exec(params: &Params, group_info: &GroupInfo, total_photos: usize, current_pos: usize, ncuts: usize) -> (r: usize)
    requires
        ncuts >= 1,
        params.photos_per_page_min <= params.photos_per_page_max,
        group_info.wf(),
        crate::model::total_of(group_info@) == total_photos,
        current_pos < total_photos,
    ensures
        r == start_next_cut(*params, group_info@, total_photos as int, current_pos as int, ncuts as int),
        current_pos < r <= total_photos,
{
    let ghost ends = group_info@;
    let gmin = params.group_min_photos;
    let pages_left = if params.page_target >= ncuts {
        params.page_target - ncuts + 1
    } else {
        1
    };
    let photos_left = total_photos - current_pos;
    assert(photos_left % pages_left != 0 ==> photos_left / pages_left < photos_left)
        by (nonlinear_arith)
        requires
            pages_left >= 1,
            photos_left >= 1,
    ;
    let p_avg = if photos_left % pages_left == 0 {
        photos_left / pages_left
    } else {
        photos_left / pages_left + 1
    };
    let mut p_target = clamp_page_size(params, p_avg, photos_left);
    let candidate_cut = current_pos + p_target;
    if 0 < candidate_cut && candidate_cut < total_photos {
        let last_group_idx = group_info.group_of_photo(candidate_cut - 1);
        let group_range = group_info.group_range(last_group_idx);
        proof {
            lemma_group_index_of(ends, candidate_cut - 1, last_group_idx as int);
        }
        let r_curr = candidate_cut - group_range.start;
        let r_rem = group_range.end - candidate_cut;
        if r_rem > 0 && r_rem < gmin && r_curr > 0 {
            p_target = group_range.end - current_pos;
        } else if r_rem >= gmin && r_curr > 0 && r_curr < gmin && group_range.start >= current_pos {
            p_target = group_range.start - current_pos;
        }
    }
    p_target = clamp_page_size(params, p_target, photos_left);
    assert(p_target == proposed_size(*params, ends, total_photos as int, current_pos as int, ncuts as int));
    let budget = if params.page_max > ncuts {
        params.page_max - ncuts
    } else {
        0
    };
    let size = fit_page_size(params, photos_left, budget, p_target);
    proof {
        lemma_next_cut_advances(*params, ends, total_photos as int, current_pos as int, ncuts as int);
    }
    current_pos + size
}

/// Builds the start solution for `photos`: the photos are sorted by group
/// name (stably, by code point) and cut into pages as `start_next_cut`
/// describes.
///
/// Every page but the last holds at least `photos_per_page_min` photos and no
/// page more than `photos_per_page_max` (where that is at least one). Where
/// the photos fit on at most `page_max` pages within those limits, every page
/// keeps the limits and there are at most `page_max` pages.
pub fn create_start_solution(params: &Params, photos: &[Photo]) -> (r: PageAssignment)
    requires
        params.photos_per_page_min <= params.photos_per_page_max,
    ensures
        r@ == start_solution(*params, group_keys(photos@)),
        r.wf(),
        start_shape(*params, photos@.len() as int, r@),
        fits(*params, photos@.len() as int, params.page_max as int) ==> within_limits(*params, r@),
{
    let n = photos.len();
    proof {
        assert(group_keys(photos@).len() == n);
        lemma_start_solution_shape(*params, group_keys(photos@));
        if fits(*params, n as int, params.page_max as int) {
            lemma_start_solution_limits(*params, group_keys(photos@));
        }
    }
    if n == 0 {
        return PageAssignment::empty();
    }
    let sorted = sort_by_group(photos);
    let group_info = GroupInfo::from_photos(sorted.as_slice());
    let total_photos = sorted.len();
    let ghost keys = group_keys(photos@);
    let ghost ends = group_info@;
    proof {
        assert(group_keys(sorted@).len() == sorted@.len());
        lemma_run_ends(group_keys(sorted@));
        lemma_key_le_total_ordering();
        keys.lemma_sort_by_ensures(key_le());
        assert(group_keys(sorted@).to_multiset().len() == keys.to_multiset().len());
    }
    let mut cuts: Vec<usize> = vec![0];
    let mut current_pos: usize = 0;
    assert(total_photos == keys.len()) by {
        vstd::seq_lib::to_multiset_len(group_keys(sorted@));
        vstd::seq_lib::to_multiset_len(keys);
    }
    assert(cuts@ =~= seq![0usize]);
    while current_pos < total_photos
        invariant
            total_photos == keys.len(),
            keys == group_keys(photos@),
            keys.len() > 0,
            params.photos_per_page_min <= params.photos_per_page_max,
            group_info.wf(),
            group_info@ == ends,
            ends == run_ends(keys.sort_by(key_le())),
            crate::model::total_of(ends) == total_photos,
            cuts@.len() >= 1,
            cuts@[0] == 0,
            crate::model::strictly_increasing(cuts@),
            cuts@.last() == current_pos,
            current_pos <= total_photos,
            start_cuts_from(*params, ends, total_photos, cuts@) == start_solution(*params, keys),
        decreases total_photos - current_pos,
    {
        let ncuts = cuts.len();
        let next_cut = next_cut_exec(params, &group_info, total_photos, current_pos, ncuts);
        proof {
            assert(cuts@.push(next_cut).last() == next_cut);
        }
        cuts.push(next_cut);
        current_pos = next_cut;
    }
    PageAssignment::new(cuts)
}

/// Every start solution places all photos on strictly growing cuts, with no
/// page above `photos_per_page_max` photos (where that is at least one) and
/// every page but the last at or above `photos_per_page_min`.
pub proof fn lemma_start_solution_shape(params: Params, keys: Seq<Seq<char>>)
    requires
        params.photos_per_page_min <= params.photos_per_page_max,
        keys.len() <= usize::MAX,
    ensures
        start_shape(params, keys.len() as int, start_solution(params, keys)),
{
    if keys.len() > 0 {
        let cuts = seq![0usize];
        assert(cuts.last() == 0);
        lemma_start_cuts_from_shape(
            params,
            run_ends(keys.sort_by(key_le())),
            keys.len() as usize,
            cuts,
        );
    }
}

/// Where the photos fit on at most `page_max` pages of between
/// `photos_per_page_min` and `photos_per_page_max` photos, the start
/// solution keeps those limits: at most `page_max` pages, each within the
/// size limits.
pub proof fn lemma_start_solution_limits(params: Params, keys: Seq<Seq<char>>)
    requires
        params.photos_per_page_min <= params.photos_per_page_max,
        keys.len() <= usize::MAX,
        fits(params, keys.len() as int, params.page_max as int),
    ensures
        within_limits(params, start_solution(params, keys)),
{
    if keys.len() > 0 {
        let cuts = seq![0usize];
        assert(cuts.last() == 0);
        lemma_start_cuts_from_limits(
            params,
            run_ends(keys.sort_by(key_le())),
            keys.len() as usize,
            cuts,
        );
    }
}

/// The start solution depends only on which group names occur how often,
/// not on the order of the photos.
pub proof fn lemma_start_solution_order_free(
    params: Params,
    keys1: Seq<Seq<char>>,
    keys2: Seq<Seq<char>>,
)
    requires
        keys1.to_multiset() == keys2.to_multiset(),
    ensures
        start_solution(params, keys1) == start_solution(params, keys2),
{
    lemma_key_le_total_ordering();
    keys1.lemma_sort_by_ensures(key_le());
    keys2.lemma_sort_by_ensures(key_le());
    vstd::seq_lib::lemma_sorted_unique(keys1.sort_by(key_le()), keys2.sort_by(key_le()), key_le());
    vstd::seq_lib::to_multiset_len(keys1);
    vstd::seq_lib::to_multiset_len(keys2);
}

} // verus!
