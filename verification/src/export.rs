//! The whole export pipeline: validate the export paths, build the reduced
//! history, rewrite it into a fresh target repository.

use vstd::prelude::*;

use crate::builder::build_matches;
use crate::builder::build_partial_commit_graph_for_export;
use crate::builder::included_seq;
use crate::builder::lemma_partial_graph_wf;
use crate::builder::resolved_parents;
use crate::changeset::ChangesetId;
use crate::changeset::ChangesetView;
use crate::errors::ExportError;
use crate::graph::CommitGraph;
use crate::graph::graph_wf;
use crate::graph::index_of_id;
use crate::graph::lemma_index_of_id;
use crate::paths::RepoPath;
use crate::paths::export_paths_wf;
use crate::paths::paths_view;
use crate::paths::validate_export_paths;
use crate::rewriter::TargetRepo;
use crate::rewriter::fresh_id;
use crate::rewriter::rewrite_matches;
use crate::rewriter::rewrite_partial_changesets;
use crate::rewriter::rewritten_changeset;
use crate::builder::cs_views;

verus! {

/// Options for the debug-only graph rendering around an export run: where to
/// write the source and the reduced commit graph, and how far from the
/// starting changeset the rendering may reach.
pub struct PrintGraphArgs {
    /// Render the commit graph of the source repository to this file.
    pub source_graph_output: Option<String>,
    /// Render the commit graph of the reduced repository to this file.
    pub partial_graph_output: Option<String>,
    /// Maximum distance from the initial changeset to any rendered changeset.
    pub distance_limit: usize,
}

impl Default for PrintGraphArgs {
    /// No rendering, with the customary distance bound.
    fn default() -> (r: PrintGraphArgs)
        ensures
            r.source_graph_output is None,
            r.partial_graph_output is None,
            r.distance_limit == 10,
    {
        PrintGraphArgs { source_graph_output: None, partial_graph_output: None, distance_limit: 10 }
    }
}

/// The views of the changesets that one export run retains, in topological
/// order, unchanged.
pub open spec fn reduced_changesets(
    gv: Seq<ChangesetView>,
    eps: Seq<Seq<Seq<u8>>>,
    s: int,
) -> Seq<ChangesetView> {
    included_seq(gv, eps, s).map(|m: int, i: int| gv[i])
}

/// The re-linked parent entries of the retained changesets.
pub open spec fn reduced_parents(gv: Seq<ChangesetView>, eps: Seq<Seq<Seq<u8>>>, s: int) -> Seq<
    Seq<ChangesetId>,
> {
    included_seq(gv, eps, s).map(|m: int, i: int| resolved_parents(gv, eps, i))
}

/// The changesets of the target repository that one export run over graph
/// `gv`, export paths `eps` and start index `s` produces.
pub open spec fn target_changesets(gv: Seq<ChangesetView>, eps: Seq<Seq<Seq<u8>>>, s: int) -> Seq<
    ChangesetView,
> {
    let csv = reduced_changesets(gv, eps, s);
    let psv = reduced_parents(gv, eps, s);
    Seq::new(csv.len(), |m: int| rewritten_changeset(csv[m], m, psv[m], eps, csv))
}

/// The reduced history is pinned: anything that matches one build is the
/// reduced history.
pub proof fn lemma_build_matches_unique(
    csv: Seq<ChangesetView>,
    psv: Seq<Seq<ChangesetId>>,
    gv: Seq<ChangesetView>,
    eps: Seq<Seq<Seq<u8>>>,
    s: int,
)
    requires
        build_matches(csv, psv, gv, eps, s),
    ensures
        csv == reduced_changesets(gv, eps, s),
        psv == reduced_parents(gv, eps, s),
{
    let incl = included_seq(gv, eps, s);
    assert forall|m: int| 0 <= m < incl.len() implies csv[m] == reduced_changesets(gv, eps, s)[m]
        && psv[m] == reduced_parents(gv, eps, s)[m] by {
        assert(csv[m] == gv[incl[m]]);
        assert(reduced_changesets(gv, eps, s)[m] == gv[incl[m]]);
        assert(reduced_parents(gv, eps, s)[m] == resolved_parents(gv, eps, incl[m]));
    }
    assert(csv =~= reduced_changesets(gv, eps, s));
    assert(psv =~= reduced_parents(gv, eps, s));
}

/// The target is pinned: anything that matches one rewrite of the reduced
/// history is the target.
pub proof fn lemma_rewrite_matches_unique(
    tv: Seq<ChangesetView>,
    csv: Seq<ChangesetView>,
    psv: Seq<Seq<ChangesetId>>,
    gv: Seq<ChangesetView>,
    eps: Seq<Seq<Seq<u8>>>,
    s: int,
)
    requires
        build_matches(csv, psv, gv, eps, s),
        rewrite_matches(tv, csv, psv, eps),
    ensures
        tv == target_changesets(gv, eps, s),
{
    lemma_build_matches_unique(csv, psv, gv, eps, s);
    assert(tv =~= target_changesets(gv, eps, s));
}

/// The canonical reduced history and target satisfy the build and rewrite
/// relations, so every law stated over those relations holds of what
/// `export` returns.
pub proof fn lemma_canonical_matches(gv: Seq<ChangesetView>, eps: Seq<Seq<Seq<u8>>>, s: int)
    ensures
        build_matches(reduced_changesets(gv, eps, s), reduced_parents(gv, eps, s), gv, eps, s),
        rewrite_matches(
            target_changesets(gv, eps, s),
            reduced_changesets(gv, eps, s),
            reduced_parents(gv, eps, s),
            eps,
        ),
{
}

/// Runs the whole export: rejects a malformed or ambiguous export-path set,
/// reduces the history of `start` to the changesets touching the export
/// paths, and rewrites them into a fresh target repository whose head
/// bookmark resolves to the last changeset written.
pub fn export(graph: &CommitGraph, start: ChangesetId, export_paths: &Vec<RepoPath>) -> (r: Result<
    TargetRepo,
    ExportError,
>)
    ensures
        ({
            let gv = graph@;
            let eps = paths_view(export_paths@);
            let s = index_of_id(gv, start);
            let paths_ok = eps.len() > 0 && export_paths_wf(eps);
            match r {
                Ok(t) => paths_ok && graph_wf(gv) && s >= 0 && included_seq(gv, eps, s).len() > 0
                    && cs_views(t.changesets@) == target_changesets(gv, eps, s) && t.master
                    == fresh_id(included_seq(gv, eps, s).len() - 1),
                Err(e) => match e {
                    ExportError::InvalidPath { .. } => !paths_ok,
                    ExportError::GraphTraversal { .. } => paths_ok && (!graph_wf(gv) || s < 0),
                    ExportError::NoExportableHistory { start: st } => paths_ok && graph_wf(gv)
                        && s >= 0 && included_seq(gv, eps, s).len() == 0 && st == start,
                    ExportError::Rewrite { .. } => false,
                },
            }
        }),
{
    let ghost gv = graph@;
    let ghost eps = paths_view(export_paths@);
    if export_paths.len() == 0 {
        return Err(ExportError::InvalidPath { raw: Vec::new() });
    }
    if let Some(e) = validate_export_paths(export_paths) {
        return Err(e);
    }
    let pg = match build_partial_commit_graph_for_export(graph, start, export_paths) {
        Ok(pg) => pg,
        Err(e) => {
            return Err(e);
        },
    };
    let ghost s = index_of_id(gv, start);
    proof {
        lemma_index_of_id(gv, start);
        lemma_partial_graph_wf(pg.changesets_view(), pg.parents_view(), gv, eps, s);
        assert(pg.changesets@.len() == pg.changesets_view().len());
        assert(pg.parents@.len() == pg.parents_view().len());
    }
    let t = rewrite_partial_changesets(&pg, export_paths);
    proof {
        lemma_rewrite_matches_unique(
            cs_views(t.changesets@),
            pg.changesets_view(),
            pg.parents_view(),
            gv,
            eps,
            s,
        );
    }
    Ok(t)
}

} // verus!
