//! Android's `MotionEvent` actions.

use vstd::prelude::*;

verus! {

pub const DOWN: u8 = 0;

pub const UP: u8 = 1;

pub const MOVE: u8 = 2;

} // verus!
