use fotobuch::model::{GroupInfo, PageAssignment, Params, ValidationError};
use fotobuch::photo::Photo;

/// Real-valued settings of the objective, checked the way the solver does
/// before it calls `Params::validate`.
struct Weights {
    weight_even: f64,
    weight_split: f64,
    weight_pages: f64,
    max_coverage_cost: f64,
}

impl Weights {
    fn standard() -> Self {
        Weights { weight_even: 1.0, weight_split: 2.0, weight_pages: 0.5, max_coverage_cost: 0.1 }
    }

    fn nonnegative(&self) -> bool {
        !(self.weight_even < 0.0 || self.weight_split < 0.0 || self.weight_pages < 0.0)
    }

    fn coverage_positive(&self) -> bool {
        !(self.max_coverage_cost <= 0.0)
    }
}

fn default_params() -> Params {
    Params {
        page_target: 5,
        page_min: 3,
        page_max: 10,
        photos_per_page_min: 5,
        photos_per_page_max: 15,
        group_max_per_page: 3,
        group_min_photos: 3,
    }
}

fn validate(params: &Params, total: usize, weights: &Weights) -> Result<(), ValidationError> {
    params.validate(total, weights.nonnegative(), weights.coverage_positive())
}

#[test]
fn test_params_validate_valid() {
    let params = Params {
        page_target: 5,
        page_min: 3,
        page_max: 10,
        photos_per_page_min: 5,
        photos_per_page_max: 15,
        group_max_per_page: 3,
        group_min_photos: 3,
    };
    assert!(validate(&params, 50, &Weights::standard()).is_ok());
}

#[test]
fn test_params_validate_page_min_max_invalid() {
    let params = Params { page_min: 10, page_max: 5, ..default_params() };
    assert_eq!(
        validate(&params, 50, &Weights::standard()),
        Err(ValidationError::PageMinMaxInvalid { page_min: 10, page_max: 5 })
    );
}

#[test]
fn test_params_validate_page_target_out_of_range() {
    let params = Params { page_target: 15, page_min: 3, page_max: 10, ..default_params() };
    assert_eq!(
        validate(&params, 50, &Weights::standard()),
        Err(ValidationError::PageTargetOutOfRange { page_target: 15, page_min: 3, page_max: 10 })
    );
}

#[test]
fn test_params_validate_photos_per_page_min_max_invalid() {
    let params = Params { photos_per_page_min: 20, photos_per_page_max: 10, ..default_params() };
    assert_eq!(
        validate(&params, 50, &Weights::standard()),
        Err(ValidationError::PhotosPerPageMinMaxInvalid {
            photos_per_page_min: 20,
            photos_per_page_max: 10
        })
    );
}

#[test]
fn test_params_validate_photos_per_page_min_too_small() {
    let params = Params { photos_per_page_min: 2, group_min_photos: 5, ..default_params() };
    assert_eq!(
        validate(&params, 50, &Weights::standard()),
        Err(ValidationError::PhotosPerPageMinTooSmall { photos_per_page_min: 2, group_min_photos: 5 })
    );
}

#[test]
fn test_params_validate_group_max_per_page_zero() {
    let params = Params { group_max_per_page: 0, ..default_params() };
    assert_eq!(validate(&params, 50, &Weights::standard()), Err(ValidationError::GroupMaxPerPageZero));
}

#[test]
fn test_params_validate_negative_weights() {
    let params = default_params();
    let weights = Weights { weight_even: -1.0, ..Weights::standard() };
    assert_eq!(validate(&params, 50, &weights), Err(ValidationError::NegativeWeights));
}

#[test]
fn test_params_validate_max_coverage_cost_invalid() {
    let params = default_params();
    let weights = Weights { max_coverage_cost: -0.1, ..Weights::standard() };
    assert_eq!(validate(&params, 50, &weights), Err(ValidationError::MaxCoverageCostInvalid));
}

#[test]
fn test_params_validate_photo_count_too_small() {
    let params = default_params();
    // min capacity = 3 * 5 = 15, max capacity = 10 * 15 = 150
    assert_eq!(
        validate(&params, 10, &Weights::standard()),
        Err(ValidationError::PhotoCountInfeasible { total_photos: 10, min_capacity: 15, max_capacity: 150 })
    );
}

#[test]
fn test_params_validate_photo_count_too_large() {
    let params = default_params();
    assert_eq!(
        validate(&params, 200, &Weights::standard()),
        Err(ValidationError::PhotoCountInfeasible { total_photos: 200, min_capacity: 15, max_capacity: 150 })
    );
}

#[test]
fn validate_reports_first_broken_rule() {
    // Both the page bounds and the group limit are broken: the page bounds come first.
    let params = Params { page_min: 10, page_max: 5, group_max_per_page: 0, ..default_params() };
    assert_eq!(
        validate(&params, 50, &Weights::standard()),
        Err(ValidationError::PageMinMaxInvalid { page_min: 10, page_max: 5 })
    );
    // Negative weights come before the coverage threshold and the photo count.
    let weights = Weights { weight_pages: -0.5, max_coverage_cost: 0.0, ..Weights::standard() };
    assert_eq!(validate(&default_params(), 1, &weights), Err(ValidationError::NegativeWeights));
}

#[test]
fn validate_accepts_capacity_bounds() {
    let params = default_params();
    assert!(validate(&params, 15, &Weights::standard()).is_ok());
    assert!(validate(&params, 150, &Weights::standard()).is_ok());
    assert!(validate(&params, 14, &Weights::standard()).is_err());
    assert!(validate(&params, 151, &Weights::standard()).is_err());
}

#[test]
fn test_group_info_basic() {
    let group_info = GroupInfo::new(&[3, 5, 2]);
    assert_eq!(group_info.num_groups(), 3);
    assert_eq!(group_info.total_photos(), 10);
    assert_eq!(group_info.group_size(0), 3);
    assert_eq!(group_info.group_size(1), 5);
    assert_eq!(group_info.group_size(2), 2);
}

#[test]
fn test_group_info_group_of_photo() {
    let group_info = GroupInfo::new(&[3, 5, 2]);
    assert_eq!(group_info.group_of_photo(0), 0);
    assert_eq!(group_info.group_of_photo(2), 0);
    assert_eq!(group_info.group_of_photo(3), 1);
    assert_eq!(group_info.group_of_photo(7), 1);
    assert_eq!(group_info.group_of_photo(8), 2);
    assert_eq!(group_info.group_of_photo(9), 2);
}

#[test]
fn test_group_info_group_range() {
    let group_info = GroupInfo::new(&[3, 5, 2]);
    assert_eq!(group_info.group_range(0), 0..3);
    assert_eq!(group_info.group_range(1), 3..8);
    assert_eq!(group_info.group_range(2), 8..10);
}

fn photo(group: &str) -> Photo {
    Photo::new(format!("p_{}", group), group.to_string())
}

#[test]
fn test_group_info_from_photos() {
    let photos = vec![
        photo("groupA"),
        photo("groupA"),
        photo("groupA"),
        photo("groupB"),
        photo("groupB"),
        photo("groupB"),
        photo("groupB"),
        photo("groupB"),
        photo("groupC"),
        photo("groupC"),
    ];
    let group_info = GroupInfo::from_photos(&photos);
    assert_eq!(group_info.num_groups(), 3);
    assert_eq!(group_info.group_size(0), 3);
    assert_eq!(group_info.group_size(1), 5);
    assert_eq!(group_info.group_size(2), 2);
    assert_eq!(group_info.total_photos(), 10);
}

#[test]
fn test_group_info_from_photos_empty() {
    let photos: Vec<Photo> = vec![];
    let group_info = GroupInfo::from_photos(&photos);
    assert_eq!(group_info.num_groups(), 0);
    assert_eq!(group_info.total_photos(), 0);
}

#[test]
fn from_photos_counts_runs_not_names() {
    // A group name that comes back after another forms a new group.
    let photos = vec![photo("a"), photo("b"), photo("b"), photo("a")];
    let group_info = GroupInfo::from_photos(&photos);
    assert_eq!(group_info.num_groups(), 3);
    assert_eq!(group_info.group_range(0), 0..1);
    assert_eq!(group_info.group_range(1), 1..3);
    assert_eq!(group_info.group_range(2), 3..4);
}

#[test]
fn group_info_empty_group_has_empty_range() {
    let group_info = GroupInfo::new(&[2, 0, 3]);
    assert_eq!(group_info.group_size(1), 0);
    assert_eq!(group_info.group_range(1), 2..2);
    assert_eq!(group_info.group_of_photo(2), 2);
    assert_eq!(group_info.total_photos(), 5);
}

#[test]
fn group_info_sizes_round_trip() {
    let sizes = [4, 1, 7, 2];
    let group_info = GroupInfo::new(&sizes);
    let mut sum = 0;
    for (i, &size) in sizes.iter().enumerate() {
        assert_eq!(group_info.group_size(i), size);
        sum += size;
    }
    assert_eq!(group_info.total_photos(), sum);
}

#[test]
fn test_page_assignment_basic() {
    let assignment = PageAssignment::new(vec![0, 5, 12, 20]);
    assert_eq!(assignment.num_pages(), 3);
    assert_eq!(assignment.total_photos(), 20);
    assert_eq!(assignment.page_size(0), 5);
    assert_eq!(assignment.page_size(1), 7);
    assert_eq!(assignment.page_size(2), 8);
    assert_eq!(assignment.page_range(0), 0..5);
    assert_eq!(assignment.page_range(1), 5..12);
    assert_eq!(assignment.page_range(2), 12..20);
}

#[test]
fn test_page_assignment_affected_pages() {
    let assignment = PageAssignment::new(vec![0, 5, 12, 20]);
    assert_eq!(assignment.affected_pages(1), (0, 1));
    assert_eq!(assignment.affected_pages(2), (1, 2));
}

#[test]
fn test_page_assignment_empty() {
    let assignment = PageAssignment::empty();
    assert_eq!(assignment.num_pages(), 0);
    assert_eq!(assignment.total_photos(), 0);
}

#[test]
fn test_page_assignment_single_page() {
    let assignment = PageAssignment::single_page(15);
    assert_eq!(assignment.num_pages(), 1);
    assert_eq!(assignment.total_photos(), 15);
    assert_eq!(assignment.page_size(0), 15);
    assert_eq!(assignment.page_range(0), 0..15);
}

#[test]
fn page_sizes_add_up_to_total() {
    let assignment = PageAssignment::new(vec![0, 3, 4, 9, 17]);
    let sum: usize = (0..assignment.num_pages()).map(|j| assignment.page_size(j)).sum();
    assert_eq!(sum, assignment.total_photos());
    assert_eq!(assignment.cuts(), &[0, 3, 4, 9, 17]);
}
