//! `AUTH` argument 0.

use vstd::prelude::*;

verus! {

pub const TOKEN: u32 = 1;

pub const SIGNATURE: u32 = 2;

pub const RSAPUBLICKEY: u32 = 3;

} // verus!
