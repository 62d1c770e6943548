//! What a run is configured with: the pointcuts to weave, in order.

use vstd::prelude::*;

verus! {

/// A condition that says where to weave, and the advice to weave in there.
/// The condition is for the analysis pass to read; the advice is a template.
#[derive(Debug)]
pub struct PointCut {
    pub condition: String,
    pub advice: String,
}

/// The name of the system and its pointcuts, in the order in which they are
/// woven.
#[derive(Debug)]
pub struct Config {
    pub name: String,
    pub pointcuts: Vec<PointCut>,
}

} // verus!
