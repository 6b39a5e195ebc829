use vstd::prelude::*;

verus! {

pub const DEFAULT_BOARD_HEIGHT: u8 = 9;

pub const DEFAULT_BOARD_WIDTH: u8 = 9;

pub const DEFAULT_BOARD_MINES: u8 = 10;

} // verus!
