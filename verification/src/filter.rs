//! The path filter: decides whether a changeset touches any of the export
//! paths. A changeset is included exactly when one of its changed paths
//! (copy destinations count, copy sources do not) lies under an export path.

use vstd::prelude::*;

use crate::changeset::Changeset;
use crate::changeset::ChangesetView;
use crate::paths::RepoPath;
use crate::paths::path_under;
use crate::paths::paths_view;

verus! {

/// `p` lies under at least one export path.
pub open spec fn path_exported(p: Seq<Seq<u8>>, eps: Seq<Seq<Seq<u8>>>) -> bool {
    exists|i: int| 0 <= i < eps.len() && path_under(p, #[trigger] eps[i])
}

/// The changeset touches at least one export path.
pub open spec fn changeset_included(cs: ChangesetView, eps: Seq<Seq<Seq<u8>>>) -> bool {
    exists|j: int|
        0 <= j < cs.file_changes.len() && path_exported(
            (#[trigger] cs.file_changes[j]).path,
            eps,
        )
}

/// `true` iff `p` lies under one of the export paths.
pub fn path_is_exported(p: &RepoPath, export_paths: &Vec<RepoPath>) -> (r: bool)
    ensures
        r == path_exported(p@, paths_view(export_paths@)),
{
    let ghost epsv = paths_view(export_paths@);
    let mut i: usize = 0;
    while i < export_paths.len()
        invariant
            i <= export_paths@.len(),
            epsv == paths_view(export_paths@),
            forall|k: int| 0 <= k < i ==> !path_under(p@, #[trigger] epsv[k]),
        decreases export_paths@.len() - i,
    {
        if p.starts_with(&export_paths[i]) {
            proof {
                assert(epsv[i as int] == export_paths@[i as int]@);
            }
            return true;
        }
        proof {
            assert(epsv[i as int] == export_paths@[i as int]@);
        }
        i = i + 1;
    }
    false
}

/// `true` iff the changeset touches one of the export paths.
pub fn is_included(cs: &Changeset, export_paths: &Vec<RepoPath>) -> (r: bool)
    ensures
        r == changeset_included(cs@, paths_view(export_paths@)),
{
    let ghost csv = cs@;
    let mut j: usize = 0;
    while j < cs.file_changes.len()
        invariant
            j <= cs.file_changes@.len(),
            csv == cs@,
            csv.file_changes.len() == cs.file_changes@.len(),
            forall|m: int|
                0 <= m < j ==> !path_exported(
                    (#[trigger] csv.file_changes[m]).path,
                    paths_view(export_paths@),
                ),
        decreases cs.file_changes@.len() - j,
    {
        proof {
            assert(csv.file_changes[j as int] == cs.file_changes@[j as int]@);
        }
        if path_is_exported(&cs.file_changes[j].path, export_paths) {
            return true;
        }
        j = j + 1;
    }
    false
}

} // verus!
