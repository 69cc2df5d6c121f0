//! Fixed board dimensions and resource locations.

use vstd::prelude::*;

verus! {

pub const ROWS: usize = 8;

pub const COLS: usize = 8;

/// Locations of persisted resources, such as the position-key table file
/// that callers may keep between runs.
pub struct Constants {
    pub zobrist_file: String,
}

impl Constants {
    pub fn new() -> (r: Constants)
        ensures
            r.zobrist_file@ == "internal/zobrist.bin"@,
    {
        Constants { zobrist_file: "internal/zobrist.bin".to_owned() }
    }
}

} // verus!
