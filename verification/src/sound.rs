//! The feedback sounds; playing them is the application's part.

use vstd::prelude::*;

verus! {

/// Which feedback sound to play.
#[derive(Debug, Clone, Copy, PartialEq, Eq, Structural)]
pub enum SoundType {
    Start,
    Stop,
    Success,
    Error,
}

} // verus!
