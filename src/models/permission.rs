use vstd::prelude::*;

verus! {

/// The kinds of permission a user can hold.
#[derive(Clone, Copy, Debug, PartialEq, Eq, Structural)]
pub enum PermissionType {
    Admin,
    Judge,
    Commentator,
}

/// A permission held by a user.
#[derive(Clone, Copy, Debug, PartialEq, Eq, Structural)]
pub struct Permission {
    pub id: i32,
    pub user_id: i32,
    pub permission: PermissionType,
}

} // verus!
