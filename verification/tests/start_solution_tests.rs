use fotobuch::model::Params;
use fotobuch::photo::Photo;
use fotobuch::start_solution::create_start_solution;

fn default_params() -> Params {
    Params {
        page_target: 5,
        page_min: 1,
        page_max: 10,
        photos_per_page_min: 2,
        photos_per_page_max: 8,
        group_max_per_page: 3,
        group_min_photos: 2,
    }
}

fn photo(id: String, group: &str) -> Photo {
    Photo::new(id, group.to_string())
}

#[test]
fn test_empty_photos() {
    let params = default_params();
    let photos: Vec<Photo> = vec![];
    let assignment = create_start_solution(&params, &photos);
    assert_eq!(assignment.num_pages(), 0);
    assert_eq!(assignment.total_photos(), 0);
}

#[test]
fn test_single_group_single_page() {
    let params = Params { photos_per_page_min: 2, photos_per_page_max: 10, ..default_params() };
    let photos = vec![
        photo("p1".to_string(), "groupA"),
        photo("p2".to_string(), "groupA"),
        photo("p3".to_string(), "groupA"),
    ];
    let assignment = create_start_solution(&params, &photos);
    assert_eq!(assignment.num_pages(), 1);
    assert_eq!(assignment.page_size(0), 3);
}

#[test]
fn test_single_group_multiple_pages() {
    let params = Params { photos_per_page_min: 2, photos_per_page_max: 4, ..default_params() };
    let photos: Vec<Photo> = (0..10).map(|i| photo(format!("p{}", i), "groupA")).collect();
    let assignment = create_start_solution(&params, &photos);
    assert!(assignment.num_pages() >= 3);
    assert!(assignment.num_pages() <= 5);
    assert_eq!(assignment.total_photos(), 10);
    for page_idx in 0..assignment.num_pages() {
        let size = assignment.page_size(page_idx);
        assert!((2..=4).contains(&size), "Page {} size {} violates constraints", page_idx, size);
    }
}

#[test]
fn test_multiple_groups_no_fragmentation() {
    let params = Params { photos_per_page_min: 2, photos_per_page_max: 6, group_min_photos: 2, ..default_params() };
    let mut photos = Vec::new();
    for group_id in 0..3 {
        for photo_id in 0..4 {
            let group_name = format!("group{}", group_id);
            photos.push(photo(format!("p{}_{}", group_id, photo_id), &group_name));
        }
    }
    let assignment = create_start_solution(&params, &photos);
    assert!(assignment.num_pages() >= 2);
    assert!(assignment.num_pages() <= 6);
    assert_eq!(assignment.total_photos(), 12);
}

#[test]
fn test_respects_page_min_max() {
    let params = Params { photos_per_page_min: 3, photos_per_page_max: 5, ..default_params() };
    let photos: Vec<Photo> = (0..15).map(|i| photo(format!("p{}", i), "groupA")).collect();
    let assignment = create_start_solution(&params, &photos);
    for page_idx in 0..assignment.num_pages() {
        let size = assignment.page_size(page_idx);
        assert!(
            size >= params.photos_per_page_min && size <= params.photos_per_page_max,
            "Page {} size {} violates min={} max={}",
            page_idx,
            size,
            params.photos_per_page_min,
            params.photos_per_page_max
        );
    }
}

#[test]
fn test_all_photos_assigned() {
    let params = default_params();
    let photos: Vec<Photo> = (0..20).map(|i| photo(format!("p{}", i), &format!("group{}", i % 3))).collect();
    let assignment = create_start_solution(&params, &photos);
    assert_eq!(assignment.total_photos(), 20);
    assert!(assignment.num_pages() > 0);
}

#[test]
fn test_groups_sorted() {
    let params = Params { photos_per_page_min: 1, photos_per_page_max: 10, group_min_photos: 2, ..default_params() };
    let photos = vec![
        photo("p1".to_string(), "groupC"),
        photo("p2".to_string(), "groupA"),
        photo("p3".to_string(), "groupB"),
        photo("p4".to_string(), "groupA"),
    ];
    let assignment = create_start_solution(&params, &photos);
    assert!(assignment.num_pages() >= 1);
    assert!(assignment.num_pages() <= 3);
    assert_eq!(assignment.total_photos(), 4);
}

#[test]
fn start_solution_exact_cuts() {
    // 10 photos, one group, 5 target pages: every page gets the average of 2.
    let params = Params { photos_per_page_min: 2, photos_per_page_max: 4, ..default_params() };
    let photos: Vec<Photo> = (0..10).map(|i| photo(format!("p{}", i), "g")).collect();
    let assignment = create_start_solution(&params, &photos);
    assert_eq!(assignment.cuts(), &[0, 2, 4, 6, 8, 10]);
}

fn two_groups(a: usize, b: usize) -> Vec<Photo> {
    let mut photos = Vec::new();
    for i in 0..a {
        photos.push(photo(format!("a{}", i), "a"));
    }
    for i in 0..b {
        photos.push(photo(format!("b{}", i), "b"));
    }
    photos
}

#[test]
fn start_solution_moves_cut_back_to_group_start() {
    // Groups a(3), b(7), two target pages: the first page would end after two
    // photos of b; fewer than g_min = 3 of b on the page while enough are
    // left, so the cut moves back to the start of b.
    let params = Params { page_target: 2, photos_per_page_min: 1, photos_per_page_max: 8, group_min_photos: 3, ..default_params() };
    let assignment = create_start_solution(&params, &two_groups(3, 7));
    assert_eq!(assignment.cuts(), &[0, 3, 10]);
}

#[test]
fn start_solution_moves_cut_to_group_end() {
    // Groups a(6), b(4): the first page would end one photo before the end of
    // a; fewer than g_min = 3 of a would be left, so the page takes all of a.
    let params = Params { page_target: 2, photos_per_page_min: 1, photos_per_page_max: 8, group_min_photos: 3, ..default_params() };
    let assignment = create_start_solution(&params, &two_groups(6, 4));
    assert_eq!(assignment.cuts(), &[0, 6, 10]);
}

#[test]
fn start_solution_does_not_depend_on_photo_order() {
    let params = default_params();
    let a: Vec<Photo> = (0..9).map(|i| photo(format!("p{}", i), &format!("g{}", i % 3))).collect();
    let mut b = a.clone();
    b.reverse();
    let first = create_start_solution(&params, &a);
    let second = create_start_solution(&params, &b);
    assert_eq!(first.cuts(), second.cuts());
}

#[test]
fn start_solution_sorts_names_by_code_point() {
    // "A" sorts before "b": the one photo of "A" comes first, and the first
    // page stops before "b" rather than take one photo of it.
    let params = Params { page_target: 2, photos_per_page_min: 1, photos_per_page_max: 3, group_min_photos: 2, ..default_params() };
    let photos = vec![
        photo("x1".to_string(), "b"),
        photo("x2".to_string(), "b"),
        photo("x3".to_string(), "b"),
        photo("x4".to_string(), "A"),
    ];
    let assignment = create_start_solution(&params, &photos);
    assert_eq!(assignment.cuts(), &[0, 1, 4]);
}

#[test]
fn start_solution_last_page_reaches_minimum() {
    // Five photos, two to four per page: a last page of one photo would be
    // too small, so the second page takes the last three.
    let params = Params { page_target: 5, photos_per_page_min: 2, photos_per_page_max: 4, group_min_photos: 1, ..default_params() };
    let photos: Vec<Photo> = (0..5).map(|i| photo(format!("p{}", i), "g")).collect();
    let assignment = create_start_solution(&params, &photos);
    assert_eq!(assignment.cuts(), &[0, 2, 5]);
}

#[test]
fn start_solution_beyond_page_target() {
    // One target page, but ten photos of at most four per page need three.
    let params = Params { page_target: 1, photos_per_page_min: 2, photos_per_page_max: 4, ..default_params() };
    let photos: Vec<Photo> = (0..10).map(|i| photo(format!("p{}", i), "groupA")).collect();
    let assignment = create_start_solution(&params, &photos);
    assert_eq!(assignment.cuts(), &[0, 4, 8, 10]);
}

#[test]
fn start_solution_keeps_page_max() {
    // Eight photos on at most two pages of two to four photos.
    let params = Params { page_target: 5, page_max: 2, photos_per_page_min: 2, photos_per_page_max: 4, group_min_photos: 1, ..default_params() };
    let photos: Vec<Photo> = (0..8).map(|i| photo(format!("p{}", i), "g")).collect();
    let assignment = create_start_solution(&params, &photos);
    assert_eq!(assignment.cuts(), &[0, 4, 8]);
}

#[test]
fn start_solution_keeps_limits_with_groups() {
    let params = Params { page_target: 4, page_max: 4, photos_per_page_min: 3, photos_per_page_max: 5, group_min_photos: 2, ..default_params() };
    let mut photos = Vec::new();
    for (name, count) in [("a", 4), ("b", 2), ("c", 7)] {
        for i in 0..count {
            photos.push(photo(format!("{}{}", name, i), name));
        }
    }
    let assignment = create_start_solution(&params, &photos);
    assert_eq!(assignment.cuts(), &[0, 4, 7, 10, 13]);
    for j in 0..assignment.num_pages() {
        let size = assignment.page_size(j);
        assert!((3..=5).contains(&size));
    }
}

#[test]
fn start_solution_when_photos_cannot_fit() {
    // Five photos cannot fill pages of three to four photos: the last page is short.
    let params = Params { page_target: 2, photos_per_page_min: 3, photos_per_page_max: 4, group_min_photos: 1, ..default_params() };
    let photos: Vec<Photo> = (0..5).map(|i| photo(format!("p{}", i), "g")).collect();
    let assignment = create_start_solution(&params, &photos);
    assert_eq!(assignment.cuts(), &[0, 3, 5]);
}
