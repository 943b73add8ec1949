use rmath::lambert_w::{Branch, LOWER_REAL_ITERATIONS, PRINCIPAL_ITERATIONS};

#[test]
fn only_two_branches_are_real() {
    assert_eq!(Branch::from_index(0), Some(Branch::Principal));
    assert_eq!(Branch::from_index(-1), Some(Branch::LowerReal));
    assert_eq!(Branch::from_index(1), None);
    assert_eq!(Branch::from_index(-2), None);
    assert_eq!(Branch::from_index(2), None);
    assert_eq!(Branch::from_index(i32::MIN), None);
    assert_eq!(Branch::from_index(i32::MAX), None);
}

#[test]
fn a_branch_is_found_again_by_its_index() {
    assert_eq!(Branch::Principal.index(), 0);
    assert_eq!(Branch::LowerReal.index(), -1);
    for branch in [Branch::Principal, Branch::LowerReal] {
        assert_eq!(Branch::from_index(branch.index()), Some(branch));
    }
}

#[test]
fn each_branch_has_its_limit_of_steps() {
    assert_eq!(Branch::Principal.max_iterations(), 50);
    assert_eq!(Branch::LowerReal.max_iterations(), 20);
    assert_eq!(PRINCIPAL_ITERATIONS, 50);
    assert_eq!(LOWER_REAL_ITERATIONS, 20);
}
