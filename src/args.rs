use vstd::prelude::*;
use crate::board::Board;
use crate::output::OutputFormat;

verus! {

/// What a run of the solver is asked to do.
pub struct Args {
    /// The file of words, one per line.
    pub dictionary: String,
    /// How many workers search at once.
    pub threads: u8,
    /// The board to solve.
    pub board: Board,
    /// How many of the best words to show.
    pub move_count: u8,
    /// How many swaps the words may use.
    pub swaps: u8,
    /// How the words are shown.
    pub format: OutputFormat,
}

} // verus!
