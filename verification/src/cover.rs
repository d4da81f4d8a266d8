//! Cover modes and the number of photos each one places.
use vstd::prelude::*;

verus! {

/// How the photos of the cover are placed.
#[derive(Debug, Clone, Copy, PartialEq, Eq)]
pub enum CoverMode {
    /// Free layout, found like an inner page.
    Free,
    /// One photo fitted into the front panel.
    Front,
    /// One photo filling the front panel.
    FrontFull,
    /// One photo fitted into the back panel.
    Back,
    /// One photo filling the back panel.
    BackFull,
    /// One photo fitted across the whole cover.
    Spread,
    /// One photo filling the whole cover.
    SpreadFull,
    /// Two photos fitted into the front and the back panel.
    Split,
    /// Two photos filling the front and the back panel.
    SplitFull,
}

/// The number of photos that `mode` places, `None` for a free layout.
pub open spec fn slots_of(mode: CoverMode) -> Option<usize> {
    match mode {
        CoverMode::Free => None,
        CoverMode::Split | CoverMode::SplitFull => Some(2usize),
        _ => Some(1usize),
    }
}

impl CoverMode {
    /// Returns whether the cover is laid out freely.
    pub fn is_free(&self) -> (r: bool)
        ensures
            r == (*self == CoverMode::Free),
    {
        match self {
            CoverMode::Free => true,
            _ => false,
        }
    }

    /// Returns the number of photos the mode places, `None` for a free layout.
    pub fn required_slots(&self) -> (r: Option<usize>)
        ensures
            r == slots_of(*self),
            r is None <==> *self == CoverMode::Free,
            r == Some(2usize) <==> (*self == CoverMode::Split || *self == CoverMode::SplitFull),
    {
        match self {
            CoverMode::Free => None,
            CoverMode::Split | CoverMode::SplitFull => Some(2),
            _ => Some(1),
        }
    }
}

/// Compares the number of photos on the cover with what `mode` places:
/// returns the expected number when they differ, so that the caller can warn,
/// and `None` when they agree or the layout is free.
pub fn warn_slot_count_mismatch(mode: CoverMode, photo_count: usize) -> (r: Option<usize>)
    ensures
        r == (match slots_of(mode) {
            Some(expected) => if photo_count != expected {
                Some(expected)
            } else {
                None
            },
            None => None,
        }),
        r is None <==> (mode == CoverMode::Free || (photo_count == 2 && (mode == CoverMode::Split
            || mode == CoverMode::SplitFull)) || (photo_count == 1 && mode != CoverMode::Split
            && mode != CoverMode::SplitFull)),
{
    proof {
        lemma_cover_slot_counts(mode);
    }
    match mode.required_slots() {
        Some(expected) => {
            if photo_count != expected {
                Some(expected)
            } else {
                None
            }
        },
        None => None,
    }
}


/// Each mode asks for as many photos as its layout places: one on the front,
/// the back or the whole spread, one on each of front and back for a split
/// cover, and any number for a free layout. The fitted and the filled variant
/// of a panel place equally many, and a split cover places what the front
/// and the back covers place together.
pub proof fn lemma_cover_slot_counts(mode: CoverMode)
    ensures
        slots_of(mode) is None <==> mode == CoverMode::Free,
        slots_of(mode) == Some(2usize) <==> (mode == CoverMode::Split || mode == CoverMode::SplitFull),
        slots_of(mode) == Some(1usize) <==> (mode == CoverMode::Front || mode == CoverMode::FrontFull
            || mode == CoverMode::Back || mode == CoverMode::BackFull || mode == CoverMode::Spread
            || mode == CoverMode::SpreadFull),
        slots_of(CoverMode::Front) == slots_of(CoverMode::FrontFull),
        slots_of(CoverMode::Back) == slots_of(CoverMode::BackFull),
        slots_of(CoverMode::Spread) == slots_of(CoverMode::SpreadFull),
        slots_of(CoverMode::Split) == slots_of(CoverMode::SplitFull),
        slots_of(CoverMode::Split)->0 == slots_of(CoverMode::Front)->0 + slots_of(CoverMode::Back)->0,
{
}

} // verus!
