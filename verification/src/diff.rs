//! The outcome of comparing two reports.
use vstd::prelude::*;

verus! {

/// The exit code of a comparison.
pub open spec fn diff_code(exit_zero: bool, regressions: nat) -> u8 {
    if !exit_zero && regressions > 0 {
        1
    } else {
        0
    }
}

/// The exit code of a comparison: `1` where something new makes it fail, unless the run only
/// reports.
pub fn diff_exit_code(exit_zero: bool, regressions: usize) -> (r: u8)
    ensures
        r == (if !exit_zero && regressions > 0 {
            1u8
        } else {
            0u8
        }),
        r == diff_code(exit_zero, regressions as nat),
{
    if exit_zero {
        return 0;
    }
    if regressions > 0 {
        1
    } else {
        0
    }
}

/// A comparison that finds something new fails, however much it is, unless the run only reports;
/// one that finds nothing new never does.
pub proof fn anything_new_fails(exit_zero: bool, regressions: nat)
    ensures
        diff_code(true, regressions) == 0,
        diff_code(exit_zero, 0) == 0,
        regressions >= 1 ==> diff_code(false, regressions) == 1,
{
}

} // verus!
