use vstd::prelude::*;

use crate::authentication::AuthenticatedUser;

verus! {

/// A signed-in user whom the access rules allowed the request.
#[derive(Debug, Default, Clone)]
pub struct AuthorizedUser(pub AuthenticatedUser);

} // verus!
