use vstd::prelude::*;

verus! {

/// A category of a tournament, as stored.
#[derive(Debug)]
pub struct CategoryCore {
    pub id: i32,
    pub tournament_id: i32,
    pub name: String,
    pub additional_info: Option<String>,
}

} // verus!
