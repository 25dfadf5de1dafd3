use vstd::prelude::*;

verus! {

/// A competitor.
#[derive(Debug)]
pub struct Surfer {
    pub id: i32,
    pub first_name: String,
    pub last_name: String,
    pub country: Option<String>,
    pub additional_info: Option<String>,
}

} // verus!
