use vstd::prelude::*;

verus! {

/// The two ways generation can fail.
#[derive(Clone, Copy, PartialEq, Eq, Structural, Debug)]
pub enum GenError {
    /// The requested grid dimensions are unusable.
    ArgumentError,
    /// The adjacency rules left some reached cell with no admissible tile;
    /// the configured tile set is contradictory for the current partial
    /// assignment and generation cannot continue.
    TileSetError,
}

} // verus!
