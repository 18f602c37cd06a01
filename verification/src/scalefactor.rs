//! Scale factors of a channel.

use vstd::prelude::*;

verus! {

/// The scale factors of each group's bands.
#[derive(Debug, Clone, PartialEq, Eq)]
pub struct ScalefactorData {
    pub values: Vec<Vec<i16>>,
}

} // verus!
