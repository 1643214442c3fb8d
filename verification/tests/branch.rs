use state_db::branch::{BranchState, BranchStateRef, BranchStatesRef, StatesBranch};

#[test]
fn test_with_trigger() {
    // a dropped state is what closes a branch: afterwards it takes no state
    let mut branch = BranchState::new_from(3);
    assert!(!branch.has_deleted_index());
    assert!(branch.add_state());
    assert!(branch.add_state());
    assert_eq!(branch.state_ref(), BranchStateRef { start: 3, end: 6 });
    assert_eq!(branch.latest_ix(), Some(5));
    assert_eq!(branch.drop_state(), Some(5));
    assert!(branch.has_deleted_index());
    assert!(!branch.add_state());
    assert_eq!(branch.state_ref(), BranchStateRef { start: 3, end: 5 });
    assert_eq!(branch.latest_ix(), Some(4));
}

#[test]
fn branch_of_one_state() {
    let branch = BranchState::new_from(7);
    assert_eq!(branch.state_ref(), BranchStateRef { start: 7, end: 8 });
    assert_eq!(branch.latest_ix(), Some(7));
    assert_eq!(BranchState::default(), BranchState::new_from(0));
}

#[test]
fn branch_drops_to_empty() {
    let mut branch = BranchState::new_from(2);
    assert_eq!(branch.drop_state(), Some(2));
    assert_eq!(branch.latest_ix(), None);
    assert_eq!(branch.drop_state(), None);
    assert_eq!(branch.state_ref(), BranchStateRef { start: 2, end: 2 });
}

#[test]
fn branch_state_lookup() {
    let mut branch = BranchState::new_from(0);
    assert!(branch.add_state());
    assert!(branch.get_state(0));
    assert!(branch.get_state(1));
    assert!(!branch.get_state(2));
    let shifted = BranchState::new_from(4);
    assert!(!shifted.get_state(3));
    assert!(!shifted.get_state(4));
}

#[test]
fn range_lookup() {
    let range = BranchStateRef { start: 2, end: 5 };
    assert!(!range.get_state(1));
    assert!(range.get_state(2));
    assert!(range.get_state(4));
    assert!(!range.get_state(5));
}

#[test]
fn branch_ref_carries_the_index() {
    let mut state = BranchState::new_from(10);
    assert!(state.add_state());
    let branch = StatesBranch::new(4, 1, 9, state);
    assert_eq!(
        branch.branch_ref(),
        BranchStatesRef { branch_index: 4, state: BranchStateRef { start: 10, end: 12 } }
    );
}
