use rbac::Error;
use rbac::RBAC;

// Assign single role to single user/group: one to one
#[test]
fn assign_single_role_to_user_or_group() {
    let mut rbac = RBAC::default();
    rbac.add_user_or_group_to_role([1; 32], [10; 32]).unwrap();

    let vec_roles = rbac.read_user_or_group_roles([1; 32]);
    assert_eq!(vec_roles.len(), 1);
}

#[test]
fn assign_single_role_to_user_already() {
    let mut rbac = RBAC::default();
    rbac.add_user_or_group_to_role([1; 32], [10; 32]).unwrap();
    assert_eq!(
        rbac.add_user_or_group_to_role([1; 32], [10; 32]),
        Err(Error::UserOrGroupHasRoleAlready),
    );
}

// Assign multiple roles to single user/group: many to one
#[test]
fn assign_multiple_role_to_user_or_group() {
    let mut rbac = RBAC::default();
    rbac.add_user_or_group_to_role([1; 32], [10; 32]).unwrap();
    rbac.add_user_or_group_to_role([1; 32], [11; 32]).unwrap();
    rbac.add_user_or_group_to_role([1; 32], [12; 32]).unwrap();

    let vec_roles = rbac.read_user_or_group_roles([1; 32]);
    assert_eq!(vec_roles.len(), 3);
}

#[test]
fn assign_multiple_role_to_user_with_group() {
    let mut rbac = RBAC::default();
    let user_did = [1; 32];
    let group_did = [2; 32];
    let user_role_did = [10; 32];
    let group_role_did = [11; 32];
    rbac.add_user_or_group_to_role(user_did, user_role_did)
        .unwrap();
    rbac.add_user_to_group(user_did, group_did).unwrap();
    rbac.add_user_or_group_to_role(group_did, group_role_did)
        .unwrap();
    rbac.add_user_or_group_to_role(group_did, user_role_did)
        .unwrap();

    let vec_roles = rbac.read_user_or_group_roles(user_did);
    assert_eq!(vec_roles.len(), 2);
}

// Assign single role to multiple user/group: many to many
#[test]
fn assign_single_role_to_multiple_user_or_group() {
    let mut rbac = RBAC::default();
    rbac.add_user_or_group_to_role([1; 32], [10; 32]).unwrap();
    rbac.add_user_or_group_to_role([2; 32], [10; 32]).unwrap();
    rbac.add_user_or_group_to_role([2; 32], [11; 32]).unwrap();

    let vec_roles = rbac.read_user_or_group_roles([1; 32]);
    assert_eq!(vec_roles.len(), 1);

    let vec_roles = rbac.read_user_or_group_roles([2; 32]);
    assert_eq!(vec_roles.len(), 2);
}

#[test]
fn remove_role_from_user_or_group_works() {
    let mut rbac = RBAC::default();
    rbac.add_user_or_group_to_role([1; 32], [10; 32]).unwrap();
    rbac.add_user_or_group_to_role([1; 32], [11; 32]).unwrap();
    rbac.add_user_or_group_to_role([1; 32], [12; 32]).unwrap();

    let mut vec_roles = rbac.read_user_or_group_roles([1; 32]);
    assert_eq!(vec_roles.len(), 3);

    // remove user/group from role
    assert_eq!(
        rbac.remove_user_or_group_from_role([1; 32], [12; 32]),
        Ok(())
    );

    // new role count should be reduced
    vec_roles = rbac.read_user_or_group_roles([1; 32]);
    assert_eq!(vec_roles.len(), 2)
}

// remove_user_or_group_from_role_wrong_user_group() when wrong user/group id passed
#[test]
fn remove_user_or_group_from_role_wrong_user_group() {
    let mut rbac = RBAC::default();
    rbac.add_user_or_group_to_role([1; 32], [10; 32]).unwrap();
    rbac.add_user_or_group_to_role([1; 32], [11; 32]).unwrap();

    let vec_roles = rbac.read_user_or_group_roles([1; 32]);
    assert_eq!(vec_roles.len(), 2);

    // delete user/group from role where user/group id is wrong
    assert_eq!(
        rbac.remove_user_or_group_from_role([2; 32], [10; 32]),
        Err(Error::UserOrGroupDoesNotExist)
    );
}

// remove_user_or_group_from_role_wrong_role() when wrong role id passed
#[test]
fn remove_user_or_group_from_role_wrong_role() {
    let mut rbac = RBAC::default();
    rbac.add_user_or_group_to_role([1; 32], [10; 32]).unwrap();
    rbac.add_user_or_group_to_role([1; 32], [11; 32]).unwrap();

    let vec_roles = rbac.read_user_or_group_roles([1; 32]);
    assert_eq!(vec_roles.len(), 2);

    // remove user/group from role where role id is wrong
    assert_eq!(
        rbac.remove_user_or_group_from_role([1; 32], [12; 32]),
        Err(Error::RoleDoesNotExistForUserOrGroup)
    );
}

#[test]
fn read_user_or_group_roles_works() {
    let mut rbac = RBAC::default();

    // pass wrong user/group id
    let vec_roles = rbac.read_user_or_group_roles([1; 32]);
    assert_eq!(vec_roles.len(), 0);

    rbac.add_user_or_group_to_role([1; 32], [10; 32]).unwrap();
    rbac.add_user_or_group_to_role([1; 32], [11; 32]).unwrap();

    let vec_roles = rbac.read_user_or_group_roles([1; 32]);
    assert_eq!(vec_roles.len(), 2);
}

// granting the same role twice leaves exactly one occurrence
#[test]
fn duplicate_role_grant_keeps_one_occurrence() {
    let mut rbac = RBAC::default();
    assert_eq!(rbac.add_user_or_group_to_role([1; 32], [10; 32]), Ok(()));
    assert_eq!(
        rbac.add_user_or_group_to_role([1; 32], [10; 32]),
        Err(Error::UserOrGroupHasRoleAlready)
    );
    let vec_roles = rbac.read_user_or_group_roles([1; 32]);
    assert_eq!(vec_roles, vec![[10; 32]]);
}

// resolved roles come back deduplicated, in ascending byte order
#[test]
fn resolved_roles_sorted_and_deduplicated() {
    let mut rbac = RBAC::default();
    let user_did = [1; 32];
    let group_did = [2; 32];
    rbac.add_user_or_group_to_role(user_did, [12; 32]).unwrap();
    rbac.add_user_or_group_to_role(user_did, [10; 32]).unwrap();
    rbac.add_user_to_group(user_did, group_did).unwrap();
    rbac.add_user_or_group_to_role(group_did, [11; 32]).unwrap();
    rbac.add_user_or_group_to_role(group_did, [10; 32]).unwrap();

    assert_eq!(
        rbac.read_user_or_group_roles(user_did),
        vec![[10; 32], [11; 32], [12; 32]]
    );
}
