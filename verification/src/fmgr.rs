use vstd::prelude::*;

use crate::postgres::{Datum, NullableDatum};

verus! {

/// The most arguments a function can take.
pub const FUNC_MAX_ARGS: i32 = 100;

/// The argument count of a call as an unsigned word: `nargs as usize`,
/// which sign-extends a negative count.
pub open spec fn nargs_word(nargs: i16) -> int {
    if nargs >= 0 {
        nargs as int
    } else {
        nargs as int + usize::MAX as int + 1
    }
}

/// The value of argument `arg_num` of a call with `nargs` arguments whose
/// argument slots are `args`: `None` for SQL NULL, the datum otherwise.
/// The argument must exist, and only a function that is not strict can be
/// handed a NULL.
pub fn getarg_value(nargs: i16, args: &[NullableDatum], arg_num: usize, fn_strict: bool) -> (r: Option<Datum>)
    requires
        arg_num < nargs_word(nargs),
        arg_num < args@.len(),
        args@[arg_num as int].isnull ==> !fn_strict,
    ensures
        args@[arg_num as int].isnull ==> r is None,
        !args@[arg_num as int].isnull ==> r == Some(args@[arg_num as int].value),
{
    let arg = &args[arg_num];
    if arg.isnull {
        None
    } else {
        Some(arg.value)
    }
}

} // verus!
