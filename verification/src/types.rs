//! The entity records stored in the relation maps, and the error type.

use crate::ids::DIDType;
use vstd::prelude::*;

verus! {

/// An entity as it appears as the member of a group. Only user entities
/// are ever recorded as members — a group cannot itself join another
/// group — so the reference carries nothing beyond the identifier.
#[derive(Clone, Copy, Debug)]
pub struct UserGroupEntity {
    pub id: DIDType,
}

/// A role, as recorded in the identity-to-role relation.
#[derive(Clone, Copy, Debug)]
pub struct Role {
    pub id: DIDType,
}

/// A permission, as recorded in the role-to-permission relation.
#[derive(Clone, Copy, Debug)]
pub struct Permission {
    pub id: DIDType,
}

/// Everything a write operation can reject. Read operations never fail:
/// an unknown key yields an empty result.
#[derive(Clone, Copy, Debug, PartialEq, Eq)]
pub enum Error {
    /// The user and the group share one identifier, or the identifier is
    /// already in use on the other side of the membership namespace.
    UserGroupAreSame,
    /// The given group keys no membership entry.
    GroupDoesNotExist,
    /// The given user or group keys no entry in the relation at hand.
    UserOrGroupDoesNotExist,
    /// The user or group is not a recorded member of the group.
    UserOrGroupDoesNotExistInGroup,
    /// The user or group is a member of the group already.
    GroupHasUserOrGroupAlready,
    /// The reverse index already records the user or group under the group.
    UserOrGroupBelongsGroupAlready,
    /// The reverse index does not record the group for the user or group.
    GroupDoesNotExistInUserGroup,
    /// The role is not among the roles of the user or group.
    RoleDoesNotExistForUserOrGroup,
    /// The user or group holds the role already.
    UserOrGroupHasRoleAlready,
    /// The given role keys no permission entry.
    RoleDoesNotExist,
    /// The permission is not among the permissions of the role.
    PermissionNotExistInRole,
    /// The role carries the permission already.
    RoleHasPermissionAlready,
}

} // verus!
