use vstd::prelude::*;

verus! {

/// The roles a signed-in user can hold.
#[derive(Clone, Copy, Debug, PartialEq, Eq, Structural)]
pub enum Permission {
    Admin,
    Judge,
    Commentator,
}

/// A signed-in user and the user's roles.
#[derive(Debug, Default, Clone)]
pub struct AuthenticatedUser {
    pub username: String,
    pub permissions: Vec<Permission>,
}

impl AuthenticatedUser {
    /// Whether the user holds `permission`.
    pub fn has_permission(&self, permission: &Permission) -> (r: bool)
        ensures
            r == self.permissions@.contains(*permission),
    {
        let mut i: usize = 0;
        while i < self.permissions.len()
            invariant
                i <= self.permissions.len(),
                forall|j: int| 0 <= j < i ==> self.permissions@[j] != *permission,
            decreases self.permissions.len() - i,
        {
            if self.permissions[i] == *permission {
                return true;
            }
            i = i + 1;
        }
        false
    }

    /// Whether the user is an administrator.
    pub fn is_admin(&self) -> (r: bool)
        ensures
            r == self.permissions@.contains(Permission::Admin),
    {
        self.has_permission(&Permission::Admin)
    }

    /// Whether the user is a judge.
    pub fn is_judge(&self) -> (r: bool)
        ensures
            r == self.permissions@.contains(Permission::Judge),
    {
        self.has_permission(&Permission::Judge)
    }

    /// Whether the user is a commentator.
    pub fn is_commentator(&self) -> (r: bool)
        ensures
            r == self.permissions@.contains(Permission::Commentator),
    {
        self.has_permission(&Permission::Commentator)
    }
}

} // verus!
