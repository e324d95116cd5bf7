use rbac::Error;
use rbac::RBAC;

// Assign single permission to single role: one to one
#[test]
fn assign_single_permission_to_role() {
    let mut rbac = RBAC::default();
    let perm_1 = [20; 32];
    let role_1 = [10; 32];
    rbac.add_role_to_permission(role_1, perm_1).unwrap();

    let vec_perms = rbac.read_permissions(role_1);
    assert_eq!(vec_perms.len(), 1);
}

#[test]
fn assign_single_permission_to_role_multiple_times() {
    let mut rbac = RBAC::default();
    let perm_1 = [20; 32];
    let role_1 = [10; 32];
    rbac.add_role_to_permission(role_1, perm_1).unwrap();
    assert_eq!(
        rbac.add_role_to_permission(role_1, perm_1),
        Err(Error::RoleHasPermissionAlready)
    );
}

// Assign multiple permissions to single role: many to one
#[test]
fn assign_multiple_permission_to_role() {
    let mut rbac = RBAC::default();
    let role_1 = [10; 32];
    let (perm_1, perm_2, perm_3) = ([20; 32], [21; 32], [22; 32]);
    rbac.add_role_to_permission(role_1, perm_1).unwrap();
    rbac.add_role_to_permission(role_1, perm_2).unwrap();
    rbac.add_role_to_permission(role_1, perm_3).unwrap();

    let vec_perms = rbac.read_permissions(role_1);
    assert_eq!(vec_perms.len(), 3);
}

// Assign single permission to multiple roles: many to many
#[test]
fn assign_single_permission_to_multiple_role() {
    let mut rbac = RBAC::default();
    let (role_1, role_2) = ([10; 32], [11; 32]);
    let (perm_1, perm_2) = ([20; 32], [21; 32]);
    rbac.add_role_to_permission(role_1, perm_1).unwrap();
    rbac.add_role_to_permission(role_2, perm_1).unwrap();
    rbac.add_role_to_permission(role_2, perm_2).unwrap();

    let vec_perms = rbac.read_permissions(role_1);
    assert_eq!(vec_perms.len(), 1);

    let vec_perms = rbac.read_permissions(role_2);
    assert_eq!(vec_perms.len(), 2);
}

#[test]
fn remove_role_from_permission_works() {
    let mut rbac = RBAC::default();
    let role_1 = [10; 32];
    let (perm_1, perm_2, perm_3) = ([20; 32], [21; 32], [22; 32]);
    rbac.add_role_to_permission(role_1, perm_1).unwrap();
    rbac.add_role_to_permission(role_1, perm_2).unwrap();
    rbac.add_role_to_permission(role_1, perm_3).unwrap();

    let mut vec_perms = rbac.read_permissions(role_1);
    assert_eq!(vec_perms.len(), 3);

    // delete permission from role
    assert_eq!(rbac.remove_role_from_permission(role_1, perm_3), Ok(()));

    // new permission count should be reduced
    vec_perms = rbac.read_permissions(role_1);
    assert_eq!(vec_perms.len(), 2)
}

// remove_role_from_permission_wrong_role() when wrong role id passed
#[test]
fn remove_role_from_permission_wrong_role() {
    let (perm_1, perm_2) = ([20; 32], [21; 32]);
    let (role_1, role_not_exist) = ([10; 32], [13; 32]);
    let mut rbac = RBAC::default();
    rbac.add_role_to_permission(role_1, perm_1).unwrap();
    rbac.add_role_to_permission(role_1, perm_2).unwrap();

    let vec_perms = rbac.read_permissions(role_1);
    assert_eq!(vec_perms.len(), 2);

    // delete permission from role where role id is wrong
    assert_eq!(
        rbac.remove_role_from_permission(role_not_exist, perm_1),
        Err(Error::RoleDoesNotExist)
    );
}

// remove_role_from_permission_wrong_permission() when wrong permission id passed
#[test]
fn remove_role_from_permission_wrong_permission() {
    let mut rbac = RBAC::default();
    let role_1 = [10; 32];
    let (perm_1, perm_2, perm_not_exist) = ([20; 32], [21; 32], [22; 32]);

    rbac.add_role_to_permission(role_1, perm_1).unwrap();
    rbac.add_role_to_permission(role_1, perm_2).unwrap();

    let vec_perms = rbac.read_permissions(role_1);
    assert_eq!(vec_perms.len(), 2);

    // delete permission from role where permission id is wrong
    assert_eq!(
        rbac.remove_role_from_permission(role_1, perm_not_exist),
        Err(Error::PermissionNotExistInRole)
    );
}

#[test]
fn read_permissions_works() {
    let mut rbac = RBAC::default();

    let (perm_1, perm_2) = ([20; 32], [21; 32]);

    // pass wrong role id
    let vec_perms = rbac.read_permissions([10; 32]);
    assert_eq!(vec_perms.len(), 0);

    rbac.add_role_to_permission([10; 32], perm_1).unwrap();
    rbac.add_role_to_permission([10; 32], perm_2).unwrap();

    // pass correct role id
    let vec_perms = rbac.read_permissions([10; 32]);
    assert_eq!(vec_perms.len(), 2);
    assert_eq!(vec_perms.contains(&perm_1), true);
    assert_eq!(vec_perms.contains(&perm_2), true);
}

// permissions are returned in insertion order, exactly
#[test]
fn read_permissions_exact_order() {
    let mut rbac = RBAC::default();
    let role_1 = [10; 32];
    rbac.add_role_to_permission(role_1, [22; 32]).unwrap();
    rbac.add_role_to_permission(role_1, [20; 32]).unwrap();
    rbac.add_role_to_permission(role_1, [21; 32]).unwrap();
    assert_eq!(
        rbac.read_permissions(role_1),
        vec![[22; 32], [20; 32], [21; 32]]
    );
}
