//! The finished photobook: its pages, and the errors of the book solver.
use crate::mip::MipError;
use crate::model::ValidationError;
use vstd::prelude::*;

verus! {

/// Error of the book layout solver.
#[derive(Debug, Clone, PartialEq, Eq)]
pub enum SolverError {
    /// The parameters were refused.
    InvalidParams(ValidationError),
    /// The page assignment program failed.
    MipFailed(MipError),
}

/// The photos placed on one page, by photo index, in placement order.
#[derive(Debug, Clone)]
pub struct PageLayout {
    /// Photo index of every placement on the page.
    pub placements: Vec<u16>,
}

impl PageLayout {
    /// Creates a page with the given placements.
    pub fn new(placements: Vec<u16>) -> (r: Self)
        ensures
            r.placements@ == placements@,
    {
        PageLayout { placements }
    }
}

/// Number of photos on the first `k` pages.
pub open spec fn photos_on_pages(pages: Seq<PageLayout>, k: int) -> int
    decreases k,
{
    if k <= 0 {
        0
    } else {
        photos_on_pages(pages, k - 1) + pages[k - 1].placements@.len()
    }
}

/// A photobook: its pages, in order.
#[derive(Debug, Clone)]
pub struct BookLayout {
    /// All pages of the book, in order.
    pub pages: Vec<PageLayout>,
}

impl BookLayout {
    /// Creates a book with the given pages.
    pub fn new(pages: Vec<PageLayout>) -> (r: Self)
        ensures
            r.pages@ == pages@,
    {
        BookLayout { pages }
    }

    /// Creates a book with one page.
    pub fn single_page(page: PageLayout) -> (r: Self)
        ensures
            r.pages@ == seq![page],
    {
        BookLayout { pages: vec![page] }
    }

    /// Returns the number of pages.
    pub fn page_count(&self) -> (r: usize)
        ensures
            r == self.pages@.len(),
    {
        self.pages.len()
    }

    /// Returns the number of photos over all pages.
    pub fn total_photo_count(&self) -> (r: usize)
        requires
            photos_on_pages(self.pages@, self.pages@.len() as int) <= usize::MAX,
        ensures
            r == photos_on_pages(self.pages@, self.pages@.len() as int),
    {
        let mut total: usize = 0;
        let mut k: usize = 0;
        while k < self.pages.len()
            invariant
                k <= self.pages@.len(),
                photos_on_pages(self.pages@, self.pages@.len() as int) <= usize::MAX,
                total == photos_on_pages(self.pages@, k as int),
            decreases self.pages@.len() - k,
        {
            proof {
                lemma_photos_on_pages_monotone(self.pages@, k + 1, self.pages@.len() as int);
            }
            total = total + self.pages[k].placements.len();
            k = k + 1;
        }
        total
    }

    /// Returns whether the book has no pages or only empty pages.
    pub fn is_empty(&self) -> (r: bool)
        ensures
            r == (self.pages@.len() == 0 || forall|k: int|
                0 <= k < self.pages@.len() ==> #[trigger] self.pages@[k].placements@.len() == 0),
    {
        if self.pages.len() == 0 {
            return true;
        }
        let mut k: usize = 0;
        while k < self.pages.len()
            invariant
                k <= self.pages@.len(),
                forall|j: int| 0 <= j < k ==> #[trigger] self.pages@[j].placements@.len() == 0,
            decreases self.pages@.len() - k,
        {
            if self.pages[k].placements.len() != 0 {
                return false;
            }
            k = k + 1;
        }
        true
    }
}

/// Photo counts of more pages are at least as large.
proof fn lemma_photos_on_pages_monotone(pages: Seq<PageLayout>, a: int, b: int)
    requires
        0 <= a <= b <= pages.len(),
    ensures
        photos_on_pages(pages, a) <= photos_on_pages(pages, b),
    decreases b - a,
{
    if a < b {
        lemma_photos_on_pages_monotone(pages, a, b - 1);
    }
}

/// A book is empty exactly when it holds no photos.
pub proof fn lemma_empty_iff_no_photos(pages: Seq<PageLayout>)
    ensures
        (pages.len() == 0 || forall|k: int| 0 <= k < pages.len() ==> #[trigger] pages[k].placements@.len() == 0)
            <==> photos_on_pages(pages, pages.len() as int) == 0,
{
    lemma_photos_on_pages_zero(pages, pages.len() as int);
}

/// The first `n` pages hold no photo exactly when each of them is empty.
proof fn lemma_photos_on_pages_zero(pages: Seq<PageLayout>, n: int)
    requires
        0 <= n <= pages.len(),
    ensures
        (forall|k: int| 0 <= k < n ==> #[trigger] pages[k].placements@.len() == 0)
            <==> photos_on_pages(pages, n) == 0,
    decreases n,
{
    if n > 0 {
        lemma_photos_on_pages_zero(pages, n - 1);
        lemma_photos_on_pages_monotone(pages, 0, n - 1);
    }
}

} // verus!
