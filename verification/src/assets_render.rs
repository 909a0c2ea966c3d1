//! Pictures that are scattered over a ground.

use vstd::prelude::*;

verus! {

/// A picture and the class of what it shows.
#[derive(Clone, Debug)]
pub struct Asset {
    pub path: String,
    pub class: usize,
}

} // verus!
