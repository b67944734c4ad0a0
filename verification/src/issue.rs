//! Worklist items as endpoints: `issue <id>`.
use vstd::prelude::*;

use crate::frontier::join_path;

verus! {

/// Where the worklist's panorama is: `<root>/.worklist/insecure/all`. **The
/// panorama, never a window**: resolving against the open sprint would make the same
/// `issue 3a` resolve or not by which branch is checked out.
pub open spec fn panorama_path(root: Seq<char>) -> Seq<char> {
    join_path(join_path(join_path(root, ".worklist"@), "insecure"@), "all"@)
}

/// The panorama of the project's worklist, where the directory exists (`is_dir`,
/// of [`panorama_path`]). `None` is "this project has no worklist", which is not
/// an error: the worklist is cloned apart.
pub fn worklist_panorama(project_root: &str, is_dir: bool) -> (r: Option<String>)
    ensures
        match r {
            Some(p) => is_dir && p@ == panorama_path(project_root@),
            None => !is_dir,
        },
{
    if !is_dir {
        return None;
    }
    Some(crate::frontier::joined(project_root))
}

} // verus!
