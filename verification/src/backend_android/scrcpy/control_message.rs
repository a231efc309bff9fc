//! The control socket's message types, from scrcpy's `ControlMessage`.

use vstd::prelude::*;

verus! {

pub const INJECT_KEYCODE: u8 = 0;

pub const INJECT_TEXT: u8 = 1;

pub const INJECT_TOUCH_EVENT: u8 = 2;

pub const BACK_OR_SCREEN_ON: u8 = 4;

pub const GET_CLIPBOARD: u8 = 8;

pub const SET_CLIPBOARD: u8 = 9;

pub const ROTATE_DEVICE: u8 = 11;

pub const RESET_VIDEO: u8 = 17;

} // verus!
