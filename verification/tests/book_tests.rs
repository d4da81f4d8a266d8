use fotobuch::book::{BookLayout, PageLayout, SolverError};
use fotobuch::cover::{warn_slot_count_mismatch, CoverMode};
use fotobuch::mip::MipError;
use fotobuch::model::ValidationError;

#[test]
fn test_book_layout_new() {
    let page = PageLayout::new(vec![]);
    let book = BookLayout::new(vec![page]);
    assert_eq!(book.page_count(), 1);
    assert_eq!(book.total_photo_count(), 0);
}

#[test]
fn test_book_layout_single_page() {
    let page = PageLayout::new(vec![0]);
    let book = BookLayout::single_page(page);
    assert_eq!(book.page_count(), 1);
    assert_eq!(book.total_photo_count(), 1);
    assert!(!book.is_empty());
}

#[test]
fn test_book_layout_multiple_pages() {
    let page1 = PageLayout::new(vec![0]);
    let page2 = PageLayout::new(vec![1, 2]);
    let book = BookLayout::new(vec![page1, page2]);
    assert_eq!(book.page_count(), 2);
    assert_eq!(book.total_photo_count(), 3);
    assert!(!book.is_empty());
}

#[test]
fn test_book_layout_is_empty() {
    let empty_book = BookLayout::new(vec![]);
    assert!(empty_book.is_empty());
    let book_with_empty_pages = BookLayout::new(vec![PageLayout::new(vec![])]);
    assert!(book_with_empty_pages.is_empty());
    let book_with_photos = BookLayout::new(vec![PageLayout::new(vec![0])]);
    assert!(!book_with_photos.is_empty());
}

#[test]
fn book_with_empty_and_full_pages_is_not_empty() {
    let book = BookLayout::new(vec![PageLayout::new(vec![]), PageLayout::new(vec![4, 5])]);
    assert!(!book.is_empty());
    assert_eq!(book.total_photo_count(), 2);
}

#[test]
fn solver_errors_carry_their_cause() {
    let invalid = SolverError::InvalidParams(ValidationError::GroupMaxPerPageZero);
    assert_eq!(invalid, SolverError::InvalidParams(ValidationError::GroupMaxPerPageZero));
    let failed = SolverError::MipFailed(MipError::Timeout);
    assert_ne!(failed, SolverError::MipFailed(MipError::Infeasible));
}

#[test]
fn cover_slot_counts() {
    assert_eq!(CoverMode::Free.required_slots(), None);
    assert_eq!(CoverMode::Front.required_slots(), Some(1));
    assert_eq!(CoverMode::SpreadFull.required_slots(), Some(1));
    assert_eq!(CoverMode::Split.required_slots(), Some(2));
    assert_eq!(CoverMode::SplitFull.required_slots(), Some(2));
    assert!(CoverMode::Free.is_free());
    assert!(!CoverMode::Back.is_free());
}

#[test]
fn cover_mismatch_reports_expected_count() {
    assert_eq!(warn_slot_count_mismatch(CoverMode::Split, 1), Some(2));
    assert_eq!(warn_slot_count_mismatch(CoverMode::Split, 2), None);
    assert_eq!(warn_slot_count_mismatch(CoverMode::FrontFull, 0), Some(1));
    assert_eq!(warn_slot_count_mismatch(CoverMode::Free, 7), None);
}
