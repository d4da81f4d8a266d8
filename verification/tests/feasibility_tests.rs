use fotobuch::feasibility::{check_feasibility, groups_on_page_with_counts, ConstraintViolation};
use fotobuch::model::{GroupInfo, PageAssignment, Params};

fn default_params() -> Params {
    Params {
        page_target: 2,
        page_min: 1,
        page_max: 5,
        photos_per_page_min: 3,
        photos_per_page_max: 10,
        group_max_per_page: 3,
        group_min_photos: 3,
    }
}

#[test]
fn test_feasibility_valid_assignment() {
    let groups = GroupInfo::new(&[5, 4, 6]);
    let assignment = PageAssignment::new(vec![0, 5, 9, 15]);
    let params = default_params();
    let result = check_feasibility(&assignment, &groups, &params);
    assert!(result.is_ok(), "Expected Ok, got {:?}", result);
}

#[test]
fn test_feasibility_page_count_too_small() {
    let groups = GroupInfo::new(&[5, 5]);
    let assignment = PageAssignment::new(vec![0, 10]);
    let params = Params { page_min: 2, ..default_params() };
    assert_eq!(
        check_feasibility(&assignment, &groups, &params),
        Err(ConstraintViolation::PageCountOutOfRange { page_count: 1, page_min: 2, page_max: 5 })
    );
}

#[test]
fn test_feasibility_page_count_too_large() {
    let groups = GroupInfo::new(&[3, 3, 3, 3, 3, 3]);
    let assignment = PageAssignment::new(vec![0, 3, 6, 9, 12, 15, 18]);
    let params = Params { page_max: 5, ..default_params() };
    assert_eq!(
        check_feasibility(&assignment, &groups, &params),
        Err(ConstraintViolation::PageCountOutOfRange { page_count: 6, page_min: 1, page_max: 5 })
    );
}

#[test]
fn test_feasibility_page_size_too_small() {
    let groups = GroupInfo::new(&[5, 5]);
    let assignment = PageAssignment::new(vec![0, 2, 10]);
    let params = Params { photos_per_page_min: 3, ..default_params() };
    assert_eq!(
        check_feasibility(&assignment, &groups, &params),
        Err(ConstraintViolation::PageSizeOutOfRange {
            page_index: 0,
            page_size: 2,
            photos_per_page_min: 3,
            photos_per_page_max: 10
        })
    );
}

#[test]
fn test_feasibility_page_size_too_large() {
    let groups = GroupInfo::new(&[15]);
    let assignment = PageAssignment::new(vec![0, 15]);
    let params = Params { photos_per_page_max: 10, ..default_params() };
    assert_eq!(
        check_feasibility(&assignment, &groups, &params),
        Err(ConstraintViolation::PageSizeOutOfRange {
            page_index: 0,
            page_size: 15,
            photos_per_page_min: 3,
            photos_per_page_max: 10
        })
    );
}

#[test]
fn test_feasibility_too_many_groups() {
    let groups = GroupInfo::new(&[2, 2, 2, 2]);
    let assignment = PageAssignment::new(vec![0, 8]);
    let params = Params { group_max_per_page: 3, photos_per_page_max: 10, ..default_params() };
    assert_eq!(
        check_feasibility(&assignment, &groups, &params),
        Err(ConstraintViolation::TooManyGroupsOnPage { page_index: 0, group_count: 4, group_max_per_page: 3 })
    );
}

#[test]
fn test_feasibility_group_min_violation() {
    let groups = GroupInfo::new(&[5, 5]);
    let assignment = PageAssignment::new(vec![0, 2, 10]);
    let params = Params { photos_per_page_min: 2, group_min_photos: 3, ..default_params() };
    assert_eq!(
        check_feasibility(&assignment, &groups, &params),
        Err(ConstraintViolation::GroupMinViolation {
            page_index: 0,
            group_index: 0,
            group_size: 5,
            photos_in_group: 2,
            group_min_photos: 3
        })
    );
}

#[test]
fn test_feasibility_small_group_split_allowed() {
    let groups = GroupInfo::new(&[2, 2]);
    let assignment = PageAssignment::new(vec![0, 1, 4]);
    let params = Params { photos_per_page_min: 1, group_min_photos: 3, ..default_params() };
    assert!(check_feasibility(&assignment, &groups, &params).is_ok());
}

#[test]
fn feasibility_reports_first_broken_page() {
    // Page 1 is too small and page 2 holds too many groups: page 1 is reported.
    let groups = GroupInfo::new(&[4, 1, 1, 1, 1]);
    let assignment = PageAssignment::new(vec![0, 3, 4, 8]);
    let params = Params { photos_per_page_min: 2, group_max_per_page: 2, group_min_photos: 1, ..default_params() };
    assert_eq!(
        check_feasibility(&assignment, &groups, &params),
        Err(ConstraintViolation::PageSizeOutOfRange {
            page_index: 1,
            page_size: 1,
            photos_per_page_min: 2,
            photos_per_page_max: 10
        })
    );
}

#[test]
fn feasibility_split_remainder_checked_on_later_page() {
    // Group 0 (size 6) is split 4 + 2; the part on page 1 is too small.
    let groups = GroupInfo::new(&[6, 4]);
    let assignment = PageAssignment::new(vec![0, 4, 10]);
    let params = default_params();
    assert_eq!(
        check_feasibility(&assignment, &groups, &params),
        Err(ConstraintViolation::GroupMinViolation {
            page_index: 1,
            group_index: 0,
            group_size: 6,
            photos_in_group: 2,
            group_min_photos: 3
        })
    );
}

#[test]
fn test_groups_on_page_with_counts_single_group() {
    let groups = GroupInfo::new(&[10]);
    let counts = groups_on_page_with_counts(2..7, &groups);
    assert_eq!(counts, vec![(0, 5)]);
}

#[test]
fn test_groups_on_page_with_counts_multiple_groups() {
    let groups = GroupInfo::new(&[3, 4, 5]);
    let counts = groups_on_page_with_counts(2..9, &groups);
    assert_eq!(counts, vec![(0, 1), (1, 4), (2, 2)]);
}

#[test]
fn test_groups_on_page_with_counts_empty_range() {
    let groups = GroupInfo::new(&[5, 5]);
    let counts = groups_on_page_with_counts(0..0, &groups);
    assert_eq!(counts, vec![]);
}

#[test]
fn groups_on_page_skip_empty_groups() {
    let groups = GroupInfo::new(&[2, 0, 3]);
    let counts = groups_on_page_with_counts(1..4, &groups);
    assert_eq!(counts, vec![(0, 1), (2, 2)]);
    let total: usize = counts.iter().map(|&(_, c)| c).sum();
    assert_eq!(total, 3);
}

#[test]
fn feasibility_reports_pages_past_the_photos() {
    // Cuts that run past the five photos: the page count or an earlier page
    // size is reported.
    let groups = GroupInfo::new(&[5]);
    let too_many = PageAssignment::new(vec![0, 3, 6, 9, 12, 15, 18]);
    assert_eq!(
        check_feasibility(&too_many, &groups, &default_params()),
        Err(ConstraintViolation::PageCountOutOfRange { page_count: 6, page_min: 1, page_max: 5 })
    );
    let short_first = PageAssignment::new(vec![0, 2, 10]);
    assert_eq!(
        check_feasibility(&short_first, &groups, &default_params()),
        Err(ConstraintViolation::PageSizeOutOfRange {
            page_index: 0,
            page_size: 2,
            photos_per_page_min: 3,
            photos_per_page_max: 10
        })
    );
}
