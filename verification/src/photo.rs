//! Photos as the page assignment sees them, and the order of group names.
use crate::model::{group_end, group_start, nondecreasing, total_of, GroupInfo};
use vstd::prelude::*;
use vstd::relations::{sorted_by, total_ordering};

verus! {

/// A photo as the page assignment sees it: its identifier and its group.
#[derive(Debug)]
pub struct Photo {
    /// Unique photo identifier.
    pub id: String,
    /// Group identifier (e.g. folder name, event).
    pub group: String,
}

impl Clone for Photo {
    fn clone(&self) -> (r: Self)
        ensures
            r == *self,
    {
        Photo { id: self.id.clone(), group: self.group.clone() }
    }
}

impl Photo {
    /// Creates a photo with the given identifier and group.
    pub fn new(id: String, group: String) -> (r: Self)
        ensures
            r.id == id,
            r.group == group,
    {
        Photo { id, group }
    }
}

/// The group names of `photos`, in order.
pub open spec fn group_keys(photos: Seq<Photo>) -> Seq<Seq<char>> {
    photos.map_values(|p: Photo| p.group@)
}

/// Lexicographic order of character sequences, by code point: the order in
/// which strings compare.
pub open spec fn char_seq_le(a: Seq<char>, b: Seq<char>) -> bool
    decreases a.len(),
{
    if a.len() == 0 {
        true
    } else if b.len() == 0 {
        false
    } else if a[0] != b[0] {
        (a[0] as int) < (b[0] as int)
    } else {
        char_seq_le(a.drop_first(), b.drop_first())
    }
}

/// `char_seq_le` as a relation.
pub open spec fn key_le() -> spec_fn(Seq<char>, Seq<char>) -> bool {
    |a: Seq<char>, b: Seq<char>| char_seq_le(a, b)
}

proof fn lemma_char_seq_le_refl(a: Seq<char>)
    ensures
        char_seq_le(a, a),
    decreases a.len(),
{
    if a.len() > 0 {
        lemma_char_seq_le_refl(a.drop_first());
    }
}

proof fn lemma_char_seq_le_antisym(a: Seq<char>, b: Seq<char>)
    requires
        char_seq_le(a, b),
        char_seq_le(b, a),
    ensures
        a == b,
    decreases a.len(),
{
    if a.len() > 0 && b.len() > 0 {
        if a[0] == b[0] {
            lemma_char_seq_le_antisym(a.drop_first(), b.drop_first());
            assert(a =~= seq![a[0]] + a.drop_first());
            assert(b =~= seq![b[0]] + b.drop_first());
        }
    } else {
        assert(a =~= b);
    }
}

proof fn lemma_char_seq_le_trans(a: Seq<char>, b: Seq<char>, c: Seq<char>)
    requires
        char_seq_le(a, b),
        char_seq_le(b, c),
    ensures
        char_seq_le(a, c),
    decreases a.len(),
{
    if a.len() > 0 && b.len() > 0 && c.len() > 0 {
        if a[0] == b[0] && b[0] == c[0] {
            lemma_char_seq_le_trans(a.drop_first(), b.drop_first(), c.drop_first());
        }
    }
}

proof fn lemma_char_seq_le_total(a: Seq<char>, b: Seq<char>)
    ensures
        char_seq_le(a, b) || char_seq_le(b, a),
    decreases a.len(),
{
    if a.len() > 0 && b.len() > 0 {
        if a[0] == b[0] {
            lemma_char_seq_le_total(a.drop_first(), b.drop_first());
        } else {
            assert((a[0] as int) != (b[0] as int));
        }
    }
}

/// The order of group names is a total order.
pub proof fn lemma_key_le_total_ordering()
    ensures
        total_ordering(key_le()),
{
    assert forall|a: Seq<char>| #[trigger] key_le()(a, a) by {
        lemma_char_seq_le_refl(a);
    }
    assert forall|a: Seq<char>, b: Seq<char>|
        #[trigger] key_le()(a, b) && #[trigger] key_le()(b, a) implies a == b by {
        lemma_char_seq_le_antisym(a, b);
    }
    assert forall|a: Seq<char>, b: Seq<char>, c: Seq<char>|
        #[trigger] key_le()(a, b) && #[trigger] key_le()(b, c) implies key_le()(a, c) by {
        lemma_char_seq_le_trans(a, b, c);
    }
    assert forall|a: Seq<char>, b: Seq<char>|
        #[trigger] key_le()(a, b) || #[trigger] key_le()(b, a) by {
        lemma_char_seq_le_total(a, b);
    }
}

/// Compares two group names the way strings compare: `a` comes before or is
/// equal to `b`.
pub fn group_le(a: &String, b: &String) -> (r: bool)
    ensures
        r == char_seq_le(a@, b@),
{
    let sa = a.as_str();
    let sb = b.as_str();
    let la = sa.unicode_len();
    let lb = sb.unicode_len();
    let mut i: usize = 0;
    assert(a@.skip(0) =~= a@);
    assert(b@.skip(0) =~= b@);
    while i < la && i < lb
        invariant
            la == a@.len(),
            lb == b@.len(),
            sa@ == a@,
            sb@ == b@,
            i <= la,
            i <= lb,
            char_seq_le(a@, b@) == char_seq_le(a@.skip(i as int), b@.skip(i as int)),
        decreases la - i,
    {
        let ca = sa.get_char(i);
        let cb = sb.get_char(i);
        proof {
            assert(a@.skip(i as int).drop_first() =~= a@.skip(i + 1));
            assert(b@.skip(i as int).drop_first() =~= b@.skip(i + 1));
        }
        if ca != cb {
            return (ca as u32) < (cb as u32);
        }
        i = i + 1;
    }
    i == la
}

/// The cumulative ends of the maximal runs of equal names in `keys`.
pub open spec fn run_ends(keys: Seq<Seq<char>>) -> Seq<usize>
    decreases keys.len(),
{
    if keys.len() == 0 {
        seq![]
    } else {
        let prev = run_ends(keys.drop_last());
        let n = keys.len();
        if n >= 2 && keys[n - 1] == keys[n - 2] {
            prev.update(prev.len() - 1, n as usize)
        } else {
            prev.push(n as usize)
        }
    }
}

/// Facts about `run_ends`: the runs are nonempty, never decrease and cover
/// all names.
pub proof fn lemma_run_ends(keys: Seq<Seq<char>>)
    requires
        keys.len() <= usize::MAX,
    ensures
        keys.len() == 0 <==> run_ends(keys).len() == 0,
        keys.len() > 0 ==> run_ends(keys).last() == keys.len(),
        run_ends(keys).len() <= keys.len(),
        forall|i: int, j: int|
            0 <= i < j < run_ends(keys).len() ==> run_ends(keys)[i] < run_ends(keys)[j],
        forall|i: int| 0 <= i < run_ends(keys).len() ==> 0 < #[trigger] run_ends(keys)[i] <= keys.len(),
        nondecreasing(run_ends(keys)),
        total_of(run_ends(keys)) == keys.len(),
    decreases keys.len(),
{
    if keys.len() > 0 {
        lemma_run_ends(keys.drop_last());
    }
}

/// `keys[p]` belongs to the run that ends at `run_ends(keys)[l]` iff it lies in
/// that run's range: within a run all names are equal, and a new run starts
/// exactly where the name changes.
pub proof fn lemma_run_ends_runs(keys: Seq<Seq<char>>)
    requires
        keys.len() <= usize::MAX,
    ensures
        forall|l: int, p: int|
            #![trigger keys[p], group_start(run_ends(keys), l)]
            0 <= l < run_ends(keys).len() && group_start(run_ends(keys), l) <= p < group_end(
                run_ends(keys),
                l,
            ) ==> keys[p] == keys[group_start(run_ends(keys), l)],
        forall|l: int|
            0 < l < run_ends(keys).len() ==> keys[#[trigger] group_start(run_ends(keys), l)]
                != keys[group_start(run_ends(keys), l) - 1],
    decreases keys.len(),
{
    lemma_run_ends(keys);
    if keys.len() > 0 {
        let prev_keys = keys.drop_last();
        lemma_run_ends(prev_keys);
        lemma_run_ends_runs(prev_keys);
        let prev = run_ends(prev_keys);
        let e = run_ends(keys);
        let n = keys.len() as int;
        assert forall|l: int, p: int|
            #![trigger keys[p], group_start(e, l)]
            0 <= l < e.len() && group_start(e, l) <= p < group_end(e, l) implies keys[p]
            == keys[group_start(e, l)] by {
            if l < prev.len() && group_end(e, l) == group_end(prev, l) {
                assert(group_start(e, l) == group_start(prev, l));
                assert(prev_keys[p] == prev_keys[group_start(prev, l)]);
            } else if n >= 2 && keys[n - 1] == keys[n - 2] {
                assert(l == prev.len() - 1);
                assert(group_start(e, l) == group_start(prev, l));
                if p < n - 1 {
                    assert(prev_keys[p] == prev_keys[group_start(prev, l)]);
                } else {
                    assert(prev_keys[n - 2] == prev_keys[group_start(prev, l)]);
                }
            } else {
                assert(l == prev.len());
                assert(p == n - 1);
            }
        }
        assert forall|l: int| 0 < l < e.len() implies keys[#[trigger] group_start(e, l)]
            != keys[group_start(e, l) - 1] by {
            if l < prev.len() {
                assert(group_start(e, l) == group_start(prev, l));
                assert(prev_keys[group_start(prev, l)] != prev_keys[group_start(prev, l) - 1]);
            } else {
                assert(group_start(e, l) == n - 1);
            }
        }
    }
}

impl GroupInfo {
    /// Creates a `GroupInfo` from photos: each maximal run of consecutive
    /// photos with the same group name forms one group.
    pub fn from_photos(photos: &[Photo]) -> (r: GroupInfo)
        ensures
            r.wf(),
            r@ == run_ends(group_keys(photos@)),
    {
        let ghost keys = group_keys(photos@);
        let n = photos.len();
        if n == 0 {
            let empty: Vec<usize> = Vec::new();
            let r = GroupInfo::new(empty.as_slice());
            assert(r@ =~= run_ends(keys));
            return r;
        }
        proof {
            lemma_run_ends(keys);
        }
        let mut group_sizes: Vec<usize> = Vec::new();
        let mut current_group = &photos[0].group;
        let mut current_count: usize = 0;
        let mut i: usize = 0;
        while i < n
            invariant
                n == photos@.len(),
                keys == group_keys(photos@),
                keys.len() == n,
                0 <= i <= n,
                i == 0 ==> current_count == 0 && current_group@ == keys[0] && group_sizes@.len()
                    == 0,
                i > 0 ==> current_group@ == keys[i - 1],
                i > 0 ==> run_ends(keys.take(i as int)).len() == group_sizes@.len() + 1,
                i > 0 ==> crate::model::prefix_sum(group_sizes@, group_sizes@.len() as int)
                    + current_count == i,
                forall|k: int|
                    0 <= k < group_sizes@.len() ==> run_ends(keys.take(i as int))[k]
                        == crate::model::prefix_sum(group_sizes@, k + 1),
            decreases n - i,
        {
            let photo = &photos[i];
            let ghost e = run_ends(keys.take(i as int));
            let ghost sizes = group_sizes@;
            proof {
                assert(keys.take(i + 1).drop_last() =~= keys.take(i as int));
                assert(keys[i as int] == photos@[i as int].group@);
                crate::model::lemma_prefix_sum_monotone(sizes, 0, sizes.len() as int);
                if i > 0 {
                    lemma_run_ends(keys.take(i as int));
                    assert(e.last() == i);
                }
            }
            if photo.group == *current_group {
                current_count = current_count + 1;
                proof {
                    if i > 0 {
                        assert(keys.take(i + 1)[i as int] == keys.take(i + 1)[i - 1]);
                        assert(run_ends(keys.take(i + 1)) == e.update(e.len() - 1, (i + 1) as usize));
                    } else {
                        assert(run_ends(keys.take(1)) == seq![1usize]);
                    }
                }
            } else {
                let ghost cc = current_count;
                group_sizes.push(current_count);
                current_group = &photo.group;
                current_count = 1;
                proof {
                    assert(keys.take(i + 1)[i as int] != keys.take(i + 1)[i - 1]);
                    assert(run_ends(keys.take(i + 1)) == e.push((i + 1) as usize));
                    crate::model::lemma_prefix_sum_push(sizes, cc, sizes.len() as int);
                    assert forall|k: int| 0 <= k < group_sizes@.len() implies #[trigger] run_ends(
                        keys.take(i + 1),
                    )[k] == crate::model::prefix_sum(group_sizes@, k + 1) by {
                        if k + 1 <= sizes.len() {
                            crate::model::lemma_prefix_sum_push(sizes, cc, k + 1);
                        }
                    }
                }
            }
            i = i + 1;
        }
        let ghost sizes = group_sizes@;
        group_sizes.push(current_count);
        proof {
            assert(keys.take(n as int) =~= keys);
            crate::model::lemma_prefix_sum_push(sizes, current_count, sizes.len() as int);
            assert forall|k: int| 0 <= k < group_sizes@.len() implies run_ends(keys)[k]
                == crate::model::prefix_sum(group_sizes@, k + 1) by {
                if k + 1 <= sizes.len() {
                    crate::model::lemma_prefix_sum_push(sizes, current_count, k + 1);
                }
            }
            assert(crate::model::prefix_sum(group_sizes@, group_sizes@.len() as int) == n);
        }
        let r = GroupInfo::new(group_sizes.as_slice());
        assert(r@ =~= run_ends(keys));
        r
    }
}

} // verus!
