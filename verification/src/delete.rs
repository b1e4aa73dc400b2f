//! The safety rule of the delete action: a target may only be removed when
//! its canonical path lies strictly beneath the canonical startup root. The
//! embedding binary resolves the paths (twice, to shrink the check-then-act
//! race) and performs the removal; the decision itself is made here.

use vstd::prelude::*;
use vstd::string::*;

use crate::model::AppError;
use crate::text::{in_subtree, spec_in_subtree};

verus! {

/// Decide whether a canonicalized target may be deleted under the
/// canonicalized root: the root itself is refused, as is anything that does
/// not lie beneath it. `display_target` only names the target in errors.
pub fn check_target_within_root(
    target_canonical: &String,
    root_canonical: &String,
    display_target: &String,
) -> (r: Result<(), AppError>)
    ensures
        r is Ok <==> (target_canonical@ != root_canonical@ && spec_in_subtree(
            target_canonical@,
            root_canonical@,
        )),
        target_canonical@ == root_canonical@ ==> (r matches Err(e) && (e
            matches AppError::Delete { path, reason } && path == display_target && reason@
            == "refusing to delete startup root"@)),
        (target_canonical@ != root_canonical@ && !spec_in_subtree(
            target_canonical@,
            root_canonical@,
        )) ==> (r matches Err(e) && (e matches AppError::Delete { path, reason } && path
            == display_target && reason@ == "refusing to delete outside startup root"@)),
{
    if target_canonical.eq(root_canonical) {
        return Err(
            AppError::Delete {
                path: display_target.clone(),
                reason: String::from_str("refusing to delete startup root"),
            },
        );
    }
    if !in_subtree(target_canonical, root_canonical) {
        return Err(
            AppError::Delete {
                path: display_target.clone(),
                reason: String::from_str("refusing to delete outside startup root"),
            },
        );
    }
    Ok(())
}

} // verus!
