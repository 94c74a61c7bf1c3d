//! Run options and the exit code they derive from a report's totals.
use vstd::prelude::*;
use crate::diff::Totals;

verus! {

/// Options of one lint run.
pub struct CliOptions {
    pub dir: String,
    pub base: String,
    pub strict: bool,
    pub format: String,
    pub fail_on_extra: bool,
    pub fail_on_placeholder: bool,
}

/// Whether the totals make the run fail: in strict mode any finding does;
/// otherwise missing keys always do, and extra keys or placeholder
/// mismatches do when escalated.
pub open spec fn run_fails(strict: bool, fail_on_extra: bool, fail_on_placeholder: bool, t: Totals) -> bool {
    if strict {
        t.missing > 0 || t.extra > 0 || t.placeholder_mismatch > 0
    } else {
        t.missing > 0 || (fail_on_extra && t.extra > 0) || (fail_on_placeholder && t.placeholder_mismatch > 0)
    }
}

/// 1 when the run fails under the options, else 0.
pub fn exit_code(opts: &CliOptions, totals: &Totals) -> (r: i32)
    ensures
        r == (if run_fails(opts.strict, opts.fail_on_extra, opts.fail_on_placeholder, *totals) { 1i32 } else { 0i32 }),
{
    let any = totals.missing > 0 || totals.extra > 0 || totals.placeholder_mismatch > 0;
    if opts.strict && any {
        1
    } else if totals.missing > 0 {
        1
    } else if opts.fail_on_extra && totals.extra > 0 {
        1
    } else if opts.fail_on_placeholder && totals.placeholder_mismatch > 0 {
        1
    } else {
        0
    }
}

} // verus!
