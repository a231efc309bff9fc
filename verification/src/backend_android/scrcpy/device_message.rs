//! Messages the device sends back on the control socket.

use vstd::prelude::*;

verus! {

pub const CLIPBOARD: u8 = 0;

pub const ACK_CLIPBOARD: u8 = 1;

} // verus!
