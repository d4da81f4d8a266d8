use fotobuch::mip::{extract_assignment, MipError};

#[test]
fn extract_reads_active_pages() {
    let active = [true, true, false];
    let counts = vec![vec![3, 2], vec![0, 5], vec![0, 0]];
    let assignment = extract_assignment(&active, &counts, 10).unwrap();
    assert_eq!(assignment.cuts(), &[0, 5, 10]);
}

#[test]
fn extract_takes_pages_up_to_last_active() {
    let active = [true, false, true];
    let counts = vec![vec![2], vec![3], vec![5]];
    let assignment = extract_assignment(&active, &counts, 10).unwrap();
    assert_eq!(assignment.cuts(), &[0, 2, 5, 10]);
}

#[test]
fn extract_without_active_page_is_infeasible() {
    let active = [false, false];
    let counts = vec![vec![5], vec![5]];
    assert_eq!(extract_assignment(&active, &counts, 10), Err(MipError::Infeasible));
}

#[test]
fn extract_reports_cut_past_total() {
    let active = [true, true];
    let counts = vec![vec![4], vec![7]];
    assert_eq!(
        extract_assignment(&active, &counts, 10),
        Err(MipError::SolverError("Page 2 cut point 11 exceeds total photos 10".to_string()))
    );
}

#[test]
fn extract_reports_short_final_cut() {
    let active = [true, true];
    let counts = vec![vec![3], vec![4]];
    assert_eq!(
        extract_assignment(&active, &counts, 10),
        Err(MipError::SolverError("Final cut 7 does not equal total photos 10".to_string()))
    );
}
