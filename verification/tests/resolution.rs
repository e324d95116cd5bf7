use rbac::Error;
use rbac::RBAC;

#[test]
fn read_single_user_permission() {
    let mut rbac = RBAC::default();
    let user_did = [1; 32];
    let user_role_did = [10; 32];
    let user_permission_did = [11; 32];

    assert_eq!(rbac.check_access(user_did, user_permission_did), false);
    rbac.add_user_or_group_to_role(user_did, user_role_did)
        .unwrap();
    rbac.add_role_to_permission(user_role_did, user_permission_did)
        .unwrap();
    assert_eq!(rbac.check_access(user_did, user_permission_did), true);
}

#[test]
fn read_user_in_group_permission() {
    let mut rbac = RBAC::default();
    let user_did = [1; 32];
    let group_did = [2; 32];
    let group_role_did = [10; 32];
    let group_permission_did = [11; 32];

    rbac.add_user_to_group(user_did, group_did).unwrap();
    rbac.add_user_or_group_to_role(group_did, group_role_did)
        .unwrap();
    rbac.add_role_to_permission(group_role_did, group_permission_did)
        .unwrap();
    assert_eq!(rbac.check_access(user_did, group_permission_did), true);
}

// access granted through a group ends when the membership is revoked
#[test]
fn access_ends_with_membership() {
    let mut rbac = RBAC::default();
    let user_did = [1; 32];
    let group_did = [2; 32];
    let role_did = [10; 32];
    let permission_did = [11; 32];

    assert_eq!(rbac.add_user_to_group(user_did, group_did), Ok(()));
    assert_eq!(rbac.add_user_or_group_to_role(group_did, role_did), Ok(()));
    assert_eq!(rbac.add_role_to_permission(role_did, permission_did), Ok(()));
    assert_eq!(rbac.check_access(user_did, permission_did), true);
    assert_eq!(rbac.remove_user_from_group(user_did, group_did), Ok(()));
    assert_eq!(rbac.check_access(user_did, permission_did), false);
}

// access stays granted across unrelated changes, and ends when one of its
// two edges is revoked
#[test]
fn access_monotonic_until_revocation() {
    let mut rbac = RBAC::default();
    let user_did = [1; 32];
    let role_did = [10; 32];
    let permission_did = [11; 32];

    rbac.add_user_or_group_to_role(user_did, role_did).unwrap();
    rbac.add_role_to_permission(role_did, permission_did)
        .unwrap();
    assert!(rbac.check_access(user_did, permission_did));

    // unrelated grants do not disturb the access
    rbac.add_user_to_group([3; 32], [4; 32]).unwrap();
    rbac.add_user_or_group_to_role([3; 32], [12; 32]).unwrap();
    rbac.add_role_to_permission([12; 32], [13; 32]).unwrap();
    assert!(rbac.check_access(user_did, permission_did));

    // revoking the role-to-permission edge ends it
    rbac.remove_role_from_permission(role_did, permission_did)
        .unwrap();
    assert!(!rbac.check_access(user_did, permission_did));

    // granted again, access returns; revoking the role ends it again
    rbac.add_role_to_permission(role_did, permission_did)
        .unwrap();
    assert!(rbac.check_access(user_did, permission_did));
    rbac.remove_user_or_group_from_role(user_did, role_did)
        .unwrap();
    assert!(!rbac.check_access(user_did, permission_did));
}

// the full scenario: grant, resolve, revoke, resolve again
#[test]
fn end_to_end_membership_access() {
    let mut rbac = RBAC::default();
    let g1 = [1; 32];
    let u1 = [2; 32];
    let r1 = [10; 32];
    let p1 = [20; 32];

    assert_eq!(rbac.add_user_to_group(u1, g1), Ok(()));
    assert_eq!(rbac.add_user_or_group_to_role(g1, r1), Ok(()));
    assert_eq!(rbac.add_role_to_permission(r1, p1), Ok(()));
    assert_eq!(rbac.check_access(u1, p1), true);
    assert_eq!(rbac.remove_user_from_group(u1, g1), Ok(()));
    assert_eq!(rbac.check_access(u1, p1), false);
}

// revoking edges that were never granted is an error, never a silent no-op
#[test]
fn revoking_absent_edges_fails() {
    let mut rbac = RBAC::default();
    assert_eq!(
        rbac.remove_user_from_group([2; 32], [1; 32]),
        Err(Error::GroupDoesNotExist)
    );
    assert_eq!(
        rbac.remove_user_or_group_from_role([1; 32], [10; 32]),
        Err(Error::UserOrGroupDoesNotExist)
    );
    assert_eq!(
        rbac.remove_role_from_permission([10; 32], [20; 32]),
        Err(Error::RoleDoesNotExist)
    );
}
