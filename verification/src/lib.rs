//! Role-based access control over a graph of identities, roles and
//! permissions.

pub mod access;
pub mod alist;
pub mod ids;
pub mod types;

pub use access::RBAC;
pub use ids::DIDType;
pub use types::Error;
pub use types::Permission;
pub use types::Role;
pub use types::UserGroupEntity;
