//! What ends a run: the wrapped computation's success or failure becomes an
//! exit status and, on failure, one last record under the reserved name.
use vstd::prelude::*;
use crate::encode::{is_hyphenated_uuid, block_form, render_block};

verus! {

/// The name reserved for the record that reports a failure.
pub open spec fn error_name() -> Seq<char> {
    "error"@
}

/// The exit status of a run that failed.
pub const FAILURE_STATUS: i32 = 1;

/// How a run ends: the record to append, if any, and the exit status.
pub struct Conclusion {
    pub error_record: Option<String>,
    pub exit_status: i32,
}

/// On success: no record and status 0. On failure with description `e`: the
/// record of `error` and `e` in the block form, whatever `e` holds, and a
/// non-zero status.
pub fn conclude(outcome: &Result<(), String>) -> (c: Conclusion)
    ensures
        outcome is Ok ==> c.error_record is None && c.exit_status == 0,
        outcome is Err ==> {
            &&& c.exit_status == FAILURE_STATUS
            &&& c.error_record is Some
            &&& exists|d: Seq<char>|
                is_hyphenated_uuid(d) && c.error_record->0@ == #[trigger] block_form(
                    error_name(),
                    outcome->Err_0@,
                    d,
                )
        },
{
    match outcome {
        Ok(()) => Conclusion { error_record: None, exit_status: 0 },
        Err(e) => {
            let r = render_block("error", e.as_str());
            proof {
                let d = choose|d: Seq<char>|
                    is_hyphenated_uuid(d) && r@ == #[trigger] block_form("error"@, e@, d);
                assert(r@ == block_form(error_name(), outcome->Err_0@, d));
            }
            Conclusion { error_record: Some(r), exit_status: FAILURE_STATUS }
        },
    }
}

} // verus!
