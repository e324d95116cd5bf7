use rbac::Error;
use rbac::RBAC;

#[test]
fn add_single_user_to_group_works() {
    let mut rbac = RBAC::default();
    rbac.add_user_to_group([2; 32], [1; 32]).unwrap();

    let vec_users_in_group = rbac.read_user_group([1; 32]);
    assert_eq!(vec_users_in_group.len(), 1);

    let vec_group_in_user = rbac.read_user_belongs([2; 32]);
    assert_eq!(vec_group_in_user.len(), 1);
}

#[test]
fn add_single_user_to_group_already() {
    let mut rbac = RBAC::default();
    rbac.add_user_to_group([2; 32], [1; 32]).unwrap();
    assert_eq!(
        rbac.add_user_to_group([2; 32], [1; 32]),
        Err(Error::GroupHasUserOrGroupAlready)
    );
}

#[test]
fn add_multiple_user_to_group_works() {
    let mut rbac = RBAC::default();
    rbac.add_user_to_group([2; 32], [1; 32]).unwrap();
    rbac.add_user_to_group([3; 32], [1; 32]).unwrap();
    rbac.add_user_to_group([4; 32], [1; 32]).unwrap();

    let vec_users_in_group = rbac.read_user_group([1; 32]);
    assert_eq!(vec_users_in_group.len(), 3);
    let vec_group_in_user = rbac.read_user_belongs([2; 32]);
    assert_eq!(vec_group_in_user.len(), 1);
    let vec_group_in_user = rbac.read_user_belongs([3; 32]);
    assert_eq!(vec_group_in_user.len(), 1);
    let vec_group_in_user = rbac.read_user_belongs([4; 32]);
    assert_eq!(vec_group_in_user.len(), 1);
}

#[test]
fn remove_user_from_group_works() {
    let mut rbac = RBAC::default();
    rbac.add_user_to_group([2; 32], [1; 32]).unwrap();
    rbac.add_user_to_group([3; 32], [1; 32]).unwrap();
    rbac.add_user_to_group([4; 32], [1; 32]).unwrap();

    let mut vec_users_in_group = rbac.read_user_group([1; 32]);
    assert_eq!(vec_users_in_group.len(), 3);
    let vec_group_in_user = rbac.read_user_belongs([4; 32]);
    assert_eq!(vec_group_in_user.len(), 1);

    // remove user from group
    assert_eq!(rbac.remove_user_from_group([4; 32], [1; 32]), Ok(()));

    // new user count should be reduced
    vec_users_in_group = rbac.read_user_group([1; 32]);
    assert_eq!(vec_users_in_group.len(), 2);
    let vec_group_in_user = rbac.read_user_belongs([4; 32]);
    assert_eq!(vec_group_in_user.len(), 0);
}

// remove_user_from_group_wrong_group() when wrong group id passed
#[test]
fn remove_user_from_group_wrong_group() {
    let mut rbac = RBAC::default();
    rbac.add_user_to_group([2; 32], [1; 32]).unwrap();
    rbac.add_user_to_group([3; 32], [1; 32]).unwrap();

    let vec_users_in_group = rbac.read_user_group([1; 32]);
    assert_eq!(vec_users_in_group.len(), 2);

    // remove user from group where group id is wrong
    assert_eq!(
        rbac.remove_user_from_group([4; 32], [2; 32]),
        Err(Error::GroupDoesNotExist)
    );
}

// user's and group's DID are the same
#[test]
fn user_group_did_are_same() {
    let mut rbac = RBAC::default();
    assert_eq!(
        rbac.add_user_to_group([1; 32], [1; 32]),
        Err(Error::UserGroupAreSame)
    );
}

// user's and group's DID conflict across the two namespaces
#[test]
fn user_group_did_conflict() {
    let mut rbac = RBAC::default();
    let (user_did, group_did) = ([2; 32], [1; 32]);
    rbac.add_user_to_group(user_did, group_did).unwrap();

    assert_eq!(
        rbac.add_user_to_group(group_did, [3; 32]),
        Err(Error::UserGroupAreSame)
    );

    assert_eq!(
        rbac.add_user_to_group([3; 32], user_did),
        Err(Error::UserGroupAreSame)
    );
}

// remove_user_from_group_wrong_user() when wrong user id passed
#[test]
fn remove_user_from_group_wrong_user() {
    let mut rbac = RBAC::default();
    rbac.add_user_to_group([2; 32], [1; 32]).unwrap();
    rbac.add_user_to_group([3; 32], [1; 32]).unwrap();

    let vec_users_in_group = rbac.read_user_group([1; 32]);
    assert_eq!(vec_users_in_group.len(), 2);

    // remove user from group where user id is wrong
    assert_eq!(
        rbac.remove_user_from_group([4; 32], [1; 32]),
        Err(Error::UserOrGroupDoesNotExistInGroup)
    );
}

#[test]
fn read_user_group_works() {
    let mut rbac = RBAC::default();

    // pass wrong group id
    let vec_users_in_group = rbac.read_user_group([1; 32]);
    assert_eq!(vec_users_in_group.len(), 0);
    let vec_group_in_user = rbac.read_user_belongs([1; 32]);
    assert_eq!(vec_group_in_user.len(), 0);

    rbac.add_user_to_group([2; 32], [1; 32]).unwrap();
    rbac.add_user_to_group([3; 32], [1; 32]).unwrap();

    let vec_users_in_group = rbac.read_user_group([1; 32]);
    assert_eq!(vec_users_in_group.len(), 2);
    let vec_group_in_user = rbac.read_user_belongs([2; 32]);
    assert_eq!(vec_group_in_user.len(), 1);
}

#[test]
fn new_starts_empty() {
    let rbac = RBAC::new();
    assert_eq!(rbac.read_user_group([1; 32]).len(), 0);
    assert_eq!(rbac.read_user_belongs([1; 32]).len(), 0);
    assert_eq!(rbac.read_user_or_group_roles([1; 32]).len(), 0);
    assert_eq!(rbac.read_permissions([1; 32]).len(), 0);
    assert!(!rbac.check_access([1; 32], [2; 32]));
}

// members are returned in insertion order, exactly
#[test]
fn read_user_group_exact_members() {
    let mut rbac = RBAC::default();
    rbac.add_user_to_group([5; 32], [1; 32]).unwrap();
    rbac.add_user_to_group([3; 32], [1; 32]).unwrap();
    rbac.add_user_to_group([4; 32], [1; 32]).unwrap();
    assert_eq!(
        rbac.read_user_group([1; 32]),
        vec![[5; 32], [3; 32], [4; 32]]
    );
}

// symmetry of the two membership indexes after adds and removes
#[test]
fn membership_symmetry_after_add_and_remove() {
    let mut rbac = RBAC::default();
    rbac.add_user_to_group([2; 32], [1; 32]).unwrap();
    rbac.add_user_to_group([2; 32], [6; 32]).unwrap();
    rbac.add_user_to_group([3; 32], [1; 32]).unwrap();

    assert!(rbac.read_user_group([1; 32]).contains(&[2; 32]));
    assert!(rbac.read_user_belongs([2; 32]).contains(&[1; 32]));
    assert!(rbac.read_user_group([6; 32]).contains(&[2; 32]));
    assert!(rbac.read_user_belongs([2; 32]).contains(&[6; 32]));

    rbac.remove_user_from_group([2; 32], [1; 32]).unwrap();
    assert!(!rbac.read_user_group([1; 32]).contains(&[2; 32]));
    assert!(!rbac.read_user_belongs([2; 32]).contains(&[1; 32]));
    assert!(rbac.read_user_group([6; 32]).contains(&[2; 32]));
    assert!(rbac.read_user_belongs([2; 32]).contains(&[6; 32]));
}

// a membership key stays known after its last edge is revoked
#[test]
fn namespace_conflict_persists_after_removal() {
    let mut rbac = RBAC::default();
    rbac.add_user_to_group([2; 32], [1; 32]).unwrap();
    rbac.remove_user_from_group([2; 32], [1; 32]).unwrap();

    // the emptied group still occupies the group namespace
    assert_eq!(
        rbac.add_user_to_group([1; 32], [7; 32]),
        Err(Error::UserGroupAreSame)
    );
    // the removed member still occupies the member namespace
    assert_eq!(
        rbac.add_user_to_group([8; 32], [2; 32]),
        Err(Error::UserGroupAreSame)
    );
    // the same edge can be granted again
    assert_eq!(rbac.add_user_to_group([2; 32], [1; 32]), Ok(()));
}

// adding the reversed pair must fail with the namespace conflict error
#[test]
fn reversed_membership_rejected() {
    let mut rbac = RBAC::default();
    assert_eq!(rbac.add_user_to_group([2; 32], [1; 32]), Ok(()));
    assert_eq!(
        rbac.add_user_to_group([1; 32], [2; 32]),
        Err(Error::UserGroupAreSame)
    );
}
