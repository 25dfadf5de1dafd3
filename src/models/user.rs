use vstd::prelude::*;

use super::permission::Permission;

verus! {

/// A user's login record as stored.
#[derive(Debug)]
pub struct UserCredentialsCore {
    pub id: i32,
    pub username: String,
    pub password_hash: String,
}

/// A user's login record with the user's permissions.
#[derive(Debug)]
pub struct UserCredentials {
    pub id: i32,
    pub username: String,
    pub password_hash: String,
    pub permissions: Option<Vec<Permission>>,
}

/// A user record as stored.
#[derive(Debug)]
pub struct UserCore {
    pub id: i32,
    pub username: String,
    pub first_name: Option<String>,
    pub last_name: Option<String>,
    pub additional_info: Option<String>,
}

/// A user, such as a judge of a heat.
#[derive(Debug)]
pub struct User {
    pub id: i32,
    pub username: String,
    pub first_name: String,
    pub last_name: String,
    pub additional_info: Option<String>,
    pub permissions: Option<Vec<Permission>>,
}

} // verus!
