use vstd::prelude::*;

verus! {

/// The colour of the jersey a surfer wears in a heat.
#[derive(Debug)]
pub struct LycraColor {
    pub id: i32,
    pub seed: i32,
    pub name: String,
    pub hex: String,
}

} // verus!
