//! When a finished task becomes a blueprint candidate.

use vstd::prelude::*;
use crate::model::{TaskExecutionMeta, TaskExecutionOutcome};

verus! {

/// The authoring pre-filter: no blueprint was loaded, the task did not
/// outright fail, and at least one tool was used.
pub open spec fn creation_wanted(meta: TaskExecutionMeta, blueprint_was_loaded: bool) -> bool {
    &&& !blueprint_was_loaded
    &&& meta.outcome != TaskExecutionOutcome::Failure
    &&& meta.tools_used@.len() > 0
}

/// Determine whether a completed task is a candidate for Blueprint authoring.
///
/// This is a lightweight pre-filter; the model makes the real decision during
/// the authoring call. It rejects only the clearly wrong cases: a blueprint
/// was already loaded (refine it instead), the task outright failed, or no
/// tools were used at all.
pub fn should_create_blueprint(meta: &TaskExecutionMeta, blueprint_was_loaded: bool) -> (b: bool)
    ensures
        b == creation_wanted(*meta, blueprint_was_loaded),
{
    if blueprint_was_loaded {
        return false;
    }
    let succeeded = match meta.outcome {
        TaskExecutionOutcome::Failure => false,
        _ => true,
    };
    let used_tools = meta.tools_used.len() > 0;
    succeeded && used_tools
}

} // verus!
