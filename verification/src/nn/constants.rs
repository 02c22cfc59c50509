//! The size of the board.

use vstd::prelude::*;

verus! {

pub const BOARD_ROWS: usize = 11;

pub const BOARD_COLS: usize = 11;

pub const BOARD_SIZE: usize = 121;

} // verus!
