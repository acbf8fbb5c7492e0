use vstd::prelude::*;

verus! {

/// Message levels understood by `elog` and `ereport`.
pub const DEBUG5: i32 = 10;
pub const DEBUG4: i32 = 11;
pub const DEBUG3: i32 = 12;
pub const DEBUG2: i32 = 13;
pub const DEBUG1: i32 = 14;
pub const LOG: i32 = 15;
pub const INFO: i32 = 17;
pub const NOTICE: i32 = 18;
pub const WARNING: i32 = 19;
pub const ERROR: i32 = 20;
pub const FATAL: i32 = 21;
pub const PANIC: i32 = 22;

} // verus!
