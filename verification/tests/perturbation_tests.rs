use fotobuch::model::{GroupInfo, PageAssignment, Params};
use fotobuch::perturbation::{max_perturbation_delta, try_perturbation};

fn create_test_params() -> Params {
    Params {
        photos_per_page_min: 4,
        photos_per_page_max: 10,
        page_min: 1,
        page_max: 5,
        page_target: 3,
        group_min_photos: 1,
        group_max_per_page: 5,
    }
}

fn create_test_groups() -> GroupInfo {
    GroupInfo::new(&[5, 5, 5])
}

#[test]
fn test_try_perturbation_valid_positive_delta() {
    let groups = create_test_groups();
    let params = create_test_params();
    let assignment = PageAssignment::new(vec![0, 5, 10, 15]);
    let result = try_perturbation(&assignment, 1, 1, &groups, &params);
    assert!(result.is_some());
    assert_eq!(result.unwrap().cuts(), &[0, 6, 10, 15]);
}

#[test]
fn test_try_perturbation_valid_negative_delta() {
    let groups = create_test_groups();
    let params = create_test_params();
    let assignment = PageAssignment::new(vec![0, 5, 10, 15]);
    let result = try_perturbation(&assignment, 2, -1, &groups, &params);
    assert!(result.is_some());
    assert_eq!(result.unwrap().cuts(), &[0, 5, 9, 15]);
}

#[test]
fn test_try_perturbation_violates_monotonicity_lower() {
    let groups = create_test_groups();
    let params = create_test_params();
    let assignment = PageAssignment::new(vec![0, 5, 10, 15]);
    let result = try_perturbation(&assignment, 2, -6, &groups, &params);
    assert!(result.is_none());
}

#[test]
fn test_try_perturbation_violates_monotonicity_upper() {
    let groups = create_test_groups();
    let params = create_test_params();
    let assignment = PageAssignment::new(vec![0, 5, 10, 15]);
    let result = try_perturbation(&assignment, 1, 6, &groups, &params);
    assert!(result.is_none());
}

#[test]
fn test_try_perturbation_out_of_bounds_negative() {
    let groups = create_test_groups();
    let params = create_test_params();
    let assignment = PageAssignment::new(vec![0, 5, 10, 15]);
    let result = try_perturbation(&assignment, 1, -10, &groups, &params);
    assert!(result.is_none());
}

#[test]
fn test_try_perturbation_out_of_bounds_positive() {
    let groups = create_test_groups();
    let params = create_test_params();
    let assignment = PageAssignment::new(vec![0, 5, 10, 15]);
    let result = try_perturbation(&assignment, 3, 10, &groups, &params);
    assert!(result.is_none());
}

#[test]
fn test_try_perturbation_violates_page_size() {
    let groups = create_test_groups();
    let params = create_test_params();
    let assignment = PageAssignment::new(vec![0, 5, 10, 15]);
    let result = try_perturbation(&assignment, 1, -3, &groups, &params);
    assert!(result.is_none(), "Should violate page size constraint");
}

#[test]
fn test_max_perturbation_delta() {
    let params = create_test_params();
    assert_eq!(max_perturbation_delta(&params), 3);
}

#[test]
fn test_max_perturbation_delta_minimum() {
    let mut params = create_test_params();
    params.photos_per_page_min = 9;
    params.photos_per_page_max = 10;
    assert_eq!(max_perturbation_delta(&params), 2);
}

#[test]
fn perturbation_index_past_cuts_is_refused() {
    let groups = create_test_groups();
    let params = create_test_params();
    let assignment = PageAssignment::new(vec![0, 5, 10, 15]);
    assert!(try_perturbation(&assignment, 4, 0, &groups, &params).is_none());
}

#[test]
fn perturbation_keeps_other_cuts() {
    let groups = create_test_groups();
    let params = create_test_params();
    let assignment = PageAssignment::new(vec![0, 5, 10, 15]);
    let moved = try_perturbation(&assignment, 2, 1, &groups, &params).unwrap();
    assert_eq!(moved.cuts(), &[0, 5, 11, 15]);
    assert_eq!(moved.num_pages(), assignment.num_pages());
}

#[test]
fn perturbation_of_first_cut_is_refused() {
    let groups = create_test_groups();
    let params = create_test_params();
    let assignment = PageAssignment::new(vec![0, 5, 10, 15]);
    assert!(try_perturbation(&assignment, 0, 1, &groups, &params).is_none());
    assert!(try_perturbation(&assignment, 0, -1, &groups, &params).is_none());
}
