use fotobuch::feasibility::check_feasibility;
use fotobuch::grid_cache::GridCache;
use fotobuch::model::{GroupInfo, PageAssignment, Params};
use fotobuch::page_problem::{cuts_from_decisions, solve_or_fallback, PageAssignmentError, PageProblem, RunMode};
use fotobuch::photo::Photo;

fn params() -> Params {
    Params {
        page_target: 2,
        page_min: 1,
        page_max: 5,
        photos_per_page_min: 3,
        photos_per_page_max: 10,
        group_max_per_page: 3,
        group_min_photos: 3,
    }
}

#[test]
fn actions_respect_group_rules() {
    let groups = GroupInfo::new(&[3, 4, 5]);
    let params = params();
    let problem = PageProblem::new(&groups, &params, RunMode::FreePageCount);
    // Sizes 4, 5, 8, 9 would leave one or two photos of a group on the page.
    assert_eq!(problem.actions(0, 0), vec![3, 6, 7, 10]);
    assert_eq!(problem.actions(3, 1), vec![3, 4, 7, 8, 9]);
    assert_eq!(problem.actions(7, 2), vec![3, 4, 5]);
}

#[test]
fn actions_empty_at_end_or_page_limit() {
    let groups = GroupInfo::new(&[3, 4, 5]);
    let params = params();
    let problem = PageProblem::new(&groups, &params, RunMode::FreePageCount);
    assert!(problem.actions(12, 1).is_empty());
    assert!(problem.actions(3, 5).is_empty());
    let fixed = PageProblem::new(&groups, &params, RunMode::FixedPageCount(2));
    assert_eq!(fixed.page_limit(), 2);
    assert!(fixed.actions(3, 2).is_empty());
    assert_eq!(fixed.actions(3, 1), vec![3, 4, 7, 8, 9]);
}

#[test]
fn actions_limit_group_count() {
    // Four groups of one photo: at most three groups on a page.
    let groups = GroupInfo::new(&[1, 1, 1, 1]);
    let params = Params { photos_per_page_min: 1, group_min_photos: 1, ..params() };
    let problem = PageProblem::new(&groups, &params, RunMode::FreePageCount);
    assert_eq!(problem.actions(0, 0), vec![1, 2, 3]);
}

#[test]
fn terminal_states() {
    let groups = GroupInfo::new(&[3, 4, 5]);
    let params = params();
    let free = PageProblem::new(&groups, &params, RunMode::FreePageCount);
    assert!(free.is_terminal(12, 2));
    assert!(free.is_terminal(12, 5));
    assert!(!free.is_terminal(12, 0));
    assert!(!free.is_terminal(12, 6));
    assert!(!free.is_terminal(11, 2));
    let fixed = PageProblem::new(&groups, &params, RunMode::FixedPageCount(3));
    assert!(fixed.is_terminal(12, 3));
    assert!(!fixed.is_terminal(12, 2));
}

#[test]
fn cuts_inside_groups() {
    let groups = GroupInfo::new(&[3, 4, 5]);
    let params = params();
    let problem = PageProblem::new(&groups, &params, RunMode::FreePageCount);
    assert!(!problem.cut_splits_group(0));
    assert!(!problem.cut_splits_group(3));
    assert!(problem.cut_splits_group(4));
    assert!(!problem.cut_splits_group(7));
    assert!(problem.cut_splits_group(8));
    assert!(problem.cut_splits_group(11));
}

#[test]
fn decisions_become_cuts() {
    let assignment = cuts_from_decisions(&[3, 4, 5]);
    assert_eq!(assignment.cuts(), &[0, 3, 7, 12]);
    let empty = cuts_from_decisions(&[]);
    assert_eq!(empty.cuts(), &[0]);
    assert_eq!(empty.num_pages(), 0);
}

#[test]
fn dp_path_is_feasible() {
    let groups = GroupInfo::new(&[3, 4, 5]);
    let params = params();
    let problem = PageProblem::new(&groups, &params, RunMode::FreePageCount);
    let decisions = [3usize, 4, 5];
    let mut i = 0;
    for (m, &p) in decisions.iter().enumerate() {
        assert!(problem.actions(i, m).contains(&p));
        i += p;
    }
    assert!(problem.is_terminal(i, decisions.len()));
    let assignment = cuts_from_decisions(&decisions);
    assert!(check_feasibility(&assignment, &groups, &params).is_ok());
}

#[test]
fn fallback_keeps_exact_result() {
    let params = params();
    let photos = vec![Photo::new("p".to_string(), "g".to_string())];
    let exact = PageAssignment::new(vec![0, 3, 7]);
    let result = solve_or_fallback(Ok(exact.clone()), &params, &photos);
    assert_eq!(result, Ok(exact));
}

#[test]
fn fallback_uses_start_solution() {
    let params = Params { photos_per_page_min: 2, photos_per_page_max: 4, page_target: 5, ..params() };
    let photos: Vec<Photo> = (0..10).map(|i| Photo::new(format!("p{}", i), "g".to_string())).collect();
    let result = solve_or_fallback(Err(PageAssignmentError::Infeasible), &params, &photos).unwrap();
    // The last page takes the final four photos: two would be fewer than g_min = 3.
    assert_eq!(result.cuts(), &[0, 2, 4, 6, 10]);
    assert_eq!(result.total_photos(), photos.len());
}

#[test]
fn grid_cache_reads_back_writes() {
    let mut cache: GridCache<u32> = GridCache::new(4, 2);
    assert_eq!(cache.get((0, 0)), None);
    assert_eq!(cache.get((4, 2)), None);
    cache.insert((3, 1), 7);
    cache.insert((4, 2), 9);
    assert_eq!(cache.get((3, 1)), Some(&7));
    assert_eq!(cache.get((4, 2)), Some(&9));
    assert_eq!(cache.get((1, 3 - 2)), None);
    cache.insert((3, 1), 8);
    assert_eq!(cache.get((3, 1)), Some(&8));
    assert_eq!(cache.get((4, 2)), Some(&9));
}
