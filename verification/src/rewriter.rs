//! The changeset rewriter: turns the reduced history into a fresh target
//! repository. Each included changeset is rewritten with its file changes
//! restricted to the export paths, its parents translated to the new ids, and
//! persisted in topological order; the head bookmark points at the last one.
//!
//! Exported paths keep their original rooting: they are not rebased to the
//! root of the new repository. A copy whose source path lies outside the
//! export set, or whose source changeset was not retained, degrades to a
//! plain addition, since its provenance cannot be preserved.

use vstd::prelude::*;

use crate::changeset::ChangeEntryView;
use crate::changeset::ChangeView;
use crate::changeset::Changeset;
use crate::changeset::ChangesetId;
use crate::changeset::ChangesetView;
use crate::changeset::FileChange;
use crate::changeset::FileChangeEntry;
use crate::builder::PartialGraph;
use crate::builder::cs_views;
use crate::filter::path_exported;
use crate::filter::path_is_exported;
use crate::graph::index_of_id;
use crate::graph::lemma_index_of_id;
use crate::graph::lemma_index_of_id_found;
use crate::paths::RepoPath;
use crate::paths::copy_bytes;
use crate::paths::paths_view;

verus! {

/// A fresh repository holding the rewritten changesets in topological order,
/// with its head bookmark (`master` by convention) resolving to the last one.
pub struct TargetRepo {
    pub changesets: Vec<Changeset>,
    pub master: ChangesetId,
}

/// The id assigned to the rewritten changeset standing at position `m` of
/// the reduced history: ids are allocated sequentially from zero.
pub open spec fn fresh_id(m: int) -> ChangesetId {
    ChangesetId { value: m as u64 }
}

/// An original id translated to the id of its rewritten counterpart.
pub open spec fn remap_id(csv: Seq<ChangesetView>, x: ChangesetId) -> ChangesetId {
    fresh_id(index_of_id(csv, x))
}

/// A parent entry translated id by id.
pub open spec fn remap_ids(csv: Seq<ChangesetView>, s: Seq<ChangesetId>) -> Seq<ChangesetId> {
    s.map(|e: int, x: ChangesetId| remap_id(csv, x))
}

/// One retained file change, rewritten: a copy keeps its provenance only
/// when its source path is exported and its source changeset was retained
/// (the source id is then translated); otherwise it becomes an addition.
pub open spec fn rewrite_entry(
    e: ChangeEntryView,
    eps: Seq<Seq<Seq<u8>>>,
    csv: Seq<ChangesetView>,
) -> ChangeEntryView {
    match e.change {
        ChangeView::Copied { content, from_path, from_id } => {
            if path_exported(from_path, eps) && index_of_id(csv, from_id) >= 0 {
                ChangeEntryView {
                    path: e.path,
                    change: ChangeView::Copied {
                        content,
                        from_path,
                        from_id: remap_id(csv, from_id),
                    },
                }
            } else {
                ChangeEntryView { path: e.path, change: ChangeView::Added { content } }
            }
        },
        _ => e,
    }
}

/// The file changes of a rewritten changeset: the entries whose path lies
/// under an export path, in order, each rewritten.
pub open spec fn rewrite_changes(
    changes: Seq<ChangeEntryView>,
    eps: Seq<Seq<Seq<u8>>>,
    csv: Seq<ChangesetView>,
) -> Seq<ChangeEntryView>
    decreases changes.len(),
{
    if changes.len() == 0 {
        Seq::empty()
    } else {
        let rest = rewrite_changes(changes.drop_last(), eps, csv);
        if path_exported(changes.last().path, eps) {
            rest.push(rewrite_entry(changes.last(), eps, csv))
        } else {
            rest
        }
    }
}

/// The rewritten form of the changeset standing at position `m` of the
/// reduced history, with parent entry `pentry`.
pub open spec fn rewritten_changeset(
    cv: ChangesetView,
    m: int,
    pentry: Seq<ChangesetId>,
    eps: Seq<Seq<Seq<u8>>>,
    csv: Seq<ChangesetView>,
) -> ChangesetView {
    ChangesetView {
        id: fresh_id(m),
        parents: remap_ids(csv, pentry),
        file_changes: rewrite_changes(cv.file_changes, eps, csv),
        message: cv.message,
        author: cv.author,
        timestamp: cv.timestamp,
    }
}

/// The whole target: entry `m` is the rewritten form of reduced entry `m`.
pub open spec fn rewrite_matches(
    tv: Seq<ChangesetView>,
    csv: Seq<ChangesetView>,
    psv: Seq<Seq<ChangesetId>>,
    eps: Seq<Seq<Seq<u8>>>,
) -> bool {
    &&& tv.len() == csv.len()
    &&& forall|m: int|
        0 <= m < tv.len() ==> (#[trigger] tv[m]) == rewritten_changeset(
            csv[m],
            m,
            psv[m],
            eps,
            csv,
        )
}

/// Looks a changeset up by id in a plain changeset list; `None` when absent.
#[verifier::loop_isolation(false)]
fn find_in_changesets(cs: &Vec<Changeset>, id: ChangesetId) -> (r: Option<usize>)
    ensures
        r matches Some(j) ==> 0 <= j < cs@.len() && index_of_id(cs_views(cs@), id) == j as int,
        r is None ==> index_of_id(cs_views(cs@), id) < 0,
{
    let ghost csv = cs_views(cs@);
    proof {
        assert(forall|m: int| 0 <= m < csv.len() ==> (#[trigger] csv[m]) == cs@[m]@);
    }
    let mut i: usize = 0;
    while i < cs.len()
        invariant
            i <= csv.len(),
            forall|j: int| 0 <= j < i ==> (#[trigger] csv[j]).id != id,
        decreases csv.len() - i,
    {
        if cs[i].id.value == id.value {
            proof {
                assert(csv[i as int].id == id);
                lemma_index_of_id_found(csv, id, i as int);
            }
            return Some(i);
        }
        i = i + 1;
    }
    proof {
        lemma_index_of_id(csv, id);
        if index_of_id(csv, id) >= 0 {
            assert(csv[index_of_id(csv, id)].id == id);
            assert(false);
        }
    }
    None
}

/// Rewrites the reduced history into a fresh target repository: for each
/// changeset in topological order, its file changes are restricted to the
/// export paths, its parents translated to the already-assigned new ids, and
/// the head bookmark advanced to the last changeset written.
#[verifier::loop_isolation(false)]
pub fn rewrite_partial_changesets(pg: &PartialGraph, export_paths: &Vec<RepoPath>) -> (r:
    TargetRepo)
    requires
        pg.changesets@.len() >= 1,
        pg.parents@.len() == pg.changesets@.len(),
        forall|m: int, e: int|
            0 <= m < pg.parents_view().len() && 0 <= e < pg.parents_view()[m].len()
                ==> 0 <= index_of_id(pg.changesets_view(), #[trigger] pg.parents_view()[m][e])
                < m,
    ensures
        rewrite_matches(
            cs_views(r.changesets@),
            pg.changesets_view(),
            pg.parents_view(),
            paths_view(export_paths@),
        ),
        r.master == fresh_id(pg.changesets@.len() - 1),
{
    let ghost csv = pg.changesets_view();
    let ghost psv = pg.parents_view();
    let ghost eps = paths_view(export_paths@);
    proof {
        assert(forall|m: int| 0 <= m < csv.len() ==> (#[trigger] csv[m]) == pg.changesets@[m]@);
        assert(forall|m: int| 0 <= m < psv.len() ==> (#[trigger] psv[m]) == pg.parents@[m]@);
    }
    let n = pg.changesets.len();
    let mut out: Vec<Changeset> = Vec::new();
    let mut m: usize = 0;
    while m < n
        invariant
            m <= n,
            out@.len() == m,
            forall|q: int|
                0 <= q < m ==> (#[trigger] out@[q])@ == rewritten_changeset(
                    csv[q],
                    q,
                    psv[q],
                    eps,
                    csv,
                ),
        decreases n - m,
    {
        let src = &pg.changesets[m];
        proof {
            assert(src@ == csv[m as int]);
        }
        // translate the parent entry to the new ids
        let pentry = &pg.parents[m];
        proof {
            assert(pentry@ == psv[m as int]);
        }
        let mut new_parents: Vec<ChangesetId> = Vec::new();
        let mut e: usize = 0;
        while e < pentry.len()
            invariant
                e <= psv[m as int].len(),
                m < n,
                new_parents@ == remap_ids(csv, psv[m as int].take(e as int)),
            decreases psv[m as int].len() - e,
        {
            let orig = pentry[e];
            proof {
                assert(orig == psv[m as int][e as int]);
                assert(0 <= index_of_id(csv, orig) < m as int);
            }
            let oi: usize = match find_in_changesets(&pg.changesets, orig) {
                Some(oi) => oi,
                // every re-linked parent id names an earlier reduced changeset
                None => vstd::pervasive::unreached(),
            };
            new_parents.push(ChangesetId { value: oi as u64 });
            proof {
                assert(new_parents@ =~= remap_ids(csv, psv[m as int].take(e as int + 1)));
            }
            e = e + 1;
        }
        proof {
            assert(psv[m as int].take(psv[m as int].len() as int) =~= psv[m as int]);
        }
        // restrict the file changes to the export paths
        let mut new_changes: Vec<FileChangeEntry> = Vec::new();
        let mut f: usize = 0;
        while f < src.file_changes.len()
            invariant
                f <= src.file_changes@.len(),
                m < n,
                src@ == csv[m as int],
                src.file_changes@.len() == csv[m as int].file_changes.len(),
                new_changes@.map(|q: int, c: FileChangeEntry| c@) == rewrite_changes(
                    csv[m as int].file_changes.take(f as int),
                    eps,
                    csv,
                ),
            decreases src.file_changes@.len() - f,
        {
            let ghost fc = csv[m as int].file_changes;
            proof {
                assert(src.file_changes@[f as int]@ == fc[f as int]);
                assert(fc.take(f as int + 1).drop_last() =~= fc.take(f as int));
                assert(fc.take(f as int + 1).last() == fc[f as int]);
            }
            let entry = &src.file_changes[f];
            if path_is_exported(&entry.path, export_paths) {
                let ne: FileChangeEntry = match &entry.change {
                    FileChange::Copied { content, from_path, from_id } => {
                        let keep = path_is_exported(from_path, export_paths);
                        let fidx = find_in_changesets(&pg.changesets, *from_id);
                        match (keep, fidx) {
                            (true, Some(fi)) => FileChangeEntry {
                                path: entry.path.duplicate(),
                                change: FileChange::Copied {
                                    content: copy_bytes(content.as_slice()),
                                    from_path: from_path.duplicate(),
                                    from_id: ChangesetId { value: fi as u64 },
                                },
                            },
                            _ => FileChangeEntry {
                                path: entry.path.duplicate(),
                                change: FileChange::Added {
                                    content: copy_bytes(content.as_slice()),
                                },
                            },
                        }
                    },
                    _ => entry.duplicate(),
                };
                proof {
                    assert(ne@ == rewrite_entry(fc[f as int], eps, csv));
                }
                new_changes.push(ne);
                proof {
                    assert(new_changes@.map(|q: int, c: FileChangeEntry| c@)
                        =~= rewrite_changes(fc.take(f as int + 1), eps, csv));
                }
            } else {
                proof {
                    assert(new_changes@.map(|q: int, c: FileChangeEntry| c@)
                        =~= rewrite_changes(fc.take(f as int + 1), eps, csv));
                }
            }
            f = f + 1;
        }
        proof {
            let fc = csv[m as int].file_changes;
            assert(fc.take(fc.len() as int) =~= fc);
        }
        let rc = Changeset {
            id: ChangesetId { value: m as u64 },
            parents: new_parents,
            file_changes: new_changes,
            message: copy_bytes(src.message.as_slice()),
            author: copy_bytes(src.author.as_slice()),
            timestamp: src.timestamp,
        };
        proof {
            assert(rc@ == rewritten_changeset(csv[m as int], m as int, psv[m as int], eps, csv));
        }
        out.push(rc);
        m = m + 1;
    }
    TargetRepo { changesets: out, master: ChangesetId { value: (n - 1) as u64 } }
}

} // verus!
