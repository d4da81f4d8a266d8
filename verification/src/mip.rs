//! Reading a page assignment out of a solution of the page assignment
//! program: which pages are active, and how many photos of each group every
//! page holds.
use crate::model::{prefix_sum, strictly_increasing, PageAssignment};
use vstd::prelude::*;

verus! {

/// Error of the page assignment program.
#[derive(Debug, Clone, PartialEq, Eq)]
pub enum MipError {
    /// The program has no solution.
    Infeasible,
    /// The solver ran out of time.
    Timeout,
    /// The solver failed, or its solution does not describe an assignment.
    SolverError(String),
}

/// The decimal digit `d` as a character.
pub open spec fn digit_char(d: nat) -> char {
    (48 + d) as char
}

/// The decimal representation of `n`, without sign or leading zeros.
pub open spec fn decimal(n: nat) -> Seq<char>
    decreases n,
{
    if n < 10 {
        seq![digit_char(n)]
    } else {
        decimal(n / 10) + seq![digit_char(n % 10)]
    }
}

/// The message for a cut past the last photo.
pub open spec fn cut_exceeds_text(page: nat, cut: nat, total: nat) -> Seq<char> {
    "Page "@ + decimal(page) + " cut point "@ + decimal(cut) + " exceeds total photos "@ + decimal(
        total,
    )
}

/// The message for a last cut that misses the number of photos.
pub open spec fn final_cut_text(cut: nat, total: nat) -> Seq<char> {
    "Final cut "@ + decimal(cut) + " does not equal total photos "@ + decimal(total)
}

/// Formats the message for a cut past the last photo with `format!`, which
/// writes each `usize` in decimal.
#[verifier::external_body]
fn cut_exceeds_message(page: usize, cut: usize, total: usize) -> (r: String)
    ensures
        r@ == cut_exceeds_text(page as nat, cut as nat, total as nat),
{
    format!("Page {} cut point {} exceeds total photos {}", page, cut, total)
}

/// Formats the message for a last cut that misses the number of photos with
/// `format!`, which writes each `usize` in decimal.
#[verifier::external_body]
fn final_cut_message(cut: usize, total: usize) -> (r: String)
    ensures
        r@ == final_cut_text(cut as nat, total as nat),
{
    format!("Final cut {} does not equal total photos {}", cut, total)
}

/// The number of active pages: the highest page `j` in `1..=active.len()`
/// with `active[j - 1]`, or 0 if no page is active.
pub open spec fn last_active(active: Seq<bool>, k: int) -> int
    decreases k,
{
    if k <= 0 {
        0
    } else if active[k - 1] {
        k
    } else {
        last_active(active, k - 1)
    }
}

/// The number of photos on page `j` (1-based): the sum of its group counts.
pub open spec fn page_total(counts: Seq<Vec<usize>>, j: int) -> int {
    prefix_sum(counts[j - 1]@, counts[j - 1]@.len() as int)
}

/// The cuts of pages `j..=nr` appended to `cuts`, or the first page whose cut
/// passes `total`, with that cut.
pub open spec fn extracted_cuts(
    counts: Seq<Vec<usize>>,
    total: int,
    nr: int,
    j: int,
    cuts: Seq<usize>,
) -> Result<Seq<usize>, (int, int)>
    decreases nr + 1 - j,
{
    if j < 1 || j > nr {
        Ok(cuts)
    } else {
        let next = cuts.last() + page_total(counts, j);
        if next > total {
            Err((j, next))
        } else {
            extracted_cuts(counts, total, nr, j + 1, cuts.push(next as usize))
        }
    }
}

/// Sums the group counts of page `j` (1-based).
fn page_photo_count(counts: &[Vec<usize>], j: usize, total_photos: usize) -> (r: usize)
    requires
        1 <= j <= counts@.len(),
        page_total(counts@, j as int) + total_photos <= usize::MAX,
    ensures
        r == page_total(counts@, j as int),
{
    let row = &counts[j - 1];
    let ghost s = row@;
    let mut sum: usize = 0;
    let mut l: usize = 0;
    while l < row.len()
        invariant
            s == row@,
            s == counts@[j - 1]@,
            prefix_sum(s, s.len() as int) + total_photos <= usize::MAX,
            l <= s.len(),
            sum == prefix_sum(s, l as int),
        decreases s.len() - l,
    {
        proof {
            crate::model::lemma_prefix_sum_monotone(s, l + 1, s.len() as int);
        }
        sum = sum + row[l];
        l = l + 1;
    }
    sum
}

/// Reads the page assignment out of a solution: `active[j - 1]` tells
/// whether page `j` is used, `counts[j - 1][l]` how many photos of group `l`
/// page `j` holds.
///
/// The pages up to the last active one are taken, each as long as the sum
/// of its counts. `MipError::Infeasible` when no page is active;
/// `MipError::SolverError` when a cut passes `total_photos` or the last cut
/// misses it.
pub fn extract_assignment(active: &[bool], counts: &[Vec<usize>], total_photos: usize) -> (r:
    Result<PageAssignment, MipError>)
    requires
        active@.len() == counts@.len(),
        forall|j: int| 1 <= j <= counts@.len() ==> #[trigger] page_total(counts@, j) + total_photos <= usize::MAX,
        match extracted_cuts(
            counts@,
            total_photos as int,
            last_active(active@, active@.len() as int),
            1,
            seq![0usize],
        ) {
            Ok(c) => c.last() == total_photos ==> strictly_increasing(c),
            Err(_) => true,
        },
    ensures
        ({
            let nr = last_active(active@, active@.len() as int);
            if nr == 0 {
                r == Err::<PageAssignment, MipError>(MipError::Infeasible)
            } else {
                match extracted_cuts(counts@, total_photos as int, nr, 1, seq![0usize]) {
                    Err((j, c)) => (r matches Err(MipError::SolverError(s)) && s@ == cut_exceeds_text(
                        j as nat,
                        c as nat,
                        total_photos as nat,
                    )),
                    Ok(c) => if c.last() != total_photos {
                        (r matches Err(MipError::SolverError(s)) && s@ == final_cut_text(
                            c.last() as nat,
                            total_photos as nat,
                        ))
                    } else {
                        (r matches Ok(a) && a@ == c && a.wf())
                    },
                }
            }
        }),
{
    let ghost nr_spec = last_active(active@, active@.len() as int);
    let mut nr_pages: usize = active.len();
    while nr_pages > 0 && !active[nr_pages - 1]
        invariant
            nr_pages <= active@.len(),
            last_active(active@, nr_pages as int) == nr_spec,
        decreases nr_pages,
    {
        nr_pages = nr_pages - 1;
    }
    if nr_pages == 0 {
        return Err(MipError::Infeasible);
    }
    let ghost ext = extracted_cuts(counts@, total_photos as int, nr_spec, 1, seq![0usize]);
    let mut cuts: Vec<usize> = Vec::new();
    cuts.push(0);
    let mut last_cut: usize = 0;
    let mut k: usize = 0;
    assert(cuts@ =~= seq![0usize]);
    while k < nr_pages
        invariant
            nr_pages == nr_spec,
            nr_spec == last_active(active@, active@.len() as int),
            ext == extracted_cuts(counts@, total_photos as int, nr_spec, 1, seq![0usize]),
            1 <= nr_pages <= counts@.len(),
            forall|jj: int| 1 <= jj <= counts@.len() ==> #[trigger] page_total(counts@, jj) + total_photos <= usize::MAX,
            k <= nr_pages,
            cuts@.len() >= 1,
            cuts@[0] == 0,
            last_cut == cuts@.last(),
            last_cut <= total_photos,
            extracted_cuts(counts@, total_photos as int, nr_spec, k + 1, cuts@) == ext,
        decreases nr_pages - k,
    {
        let j = k + 1;
        let page_size = page_photo_count(counts, j, total_photos);
        let next_cut = last_cut + page_size;
        if next_cut > total_photos {
            assert(ext == Err::<Seq<usize>, (int, int)>((j as int, next_cut as int)));
            return Err(MipError::SolverError(cut_exceeds_message(j, next_cut, total_photos)));
        }
        proof {
            assert(cuts@.push(next_cut).last() == next_cut);
        }
        cuts.push(next_cut);
        last_cut = next_cut;
        k = j;
    }
    assert(ext == Ok::<Seq<usize>, (int, int)>(cuts@));
    if last_cut != total_photos {
        return Err(MipError::SolverError(final_cut_message(last_cut, total_photos)));
    }
    Ok(PageAssignment::new(cuts))
}

} // verus!
