//! The ways in which parsing a report or weaving a file fails.

use crate::position::Pos;
use vstd::prelude::*;

verus! {

/// Why a report was not parsed or a file not woven. Either ends the run.
#[derive(Clone, Copy, Debug, PartialEq, Eq, Structural)]
pub enum WeaveError {
    /// A record of a report does not have the form that records have.
    ArtifactParse,
    /// No character of the file stands at this position.
    PositionNotFound(Pos),
}

} // verus!
