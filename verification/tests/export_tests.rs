use gitexport::changeset::Changeset;
use gitexport::changeset::ChangesetId;
use gitexport::changeset::FileChange;
use gitexport::changeset::FileChangeEntry;
use gitexport::errors::ExportError;
use gitexport::export::PrintGraphArgs;
use gitexport::export::export;
use gitexport::graph::CommitGraph;
use gitexport::paths::RepoPath;
use gitexport::paths::validate_export_paths;
use gitexport::rewriter::TargetRepo;

fn path(s: &str) -> RepoPath {
    match RepoPath::parse(&s.as_bytes().to_vec()) {
        Ok(p) => p,
        Err(_) => panic!("expected a valid path"),
    }
}

fn cid(v: u64) -> ChangesetId {
    ChangesetId { value: v }
}

fn added(p: &str) -> FileChangeEntry {
    FileChangeEntry { path: path(p), change: FileChange::Added { content: b"data".to_vec() } }
}

fn cs(id: u64, parents: &[u64], touched: &[&str]) -> Changeset {
    Changeset {
        id: cid(id),
        parents: parents.iter().map(|v| cid(*v)).collect(),
        file_changes: touched.iter().map(|p| added(p)).collect(),
        message: format!("changeset {}", id).into_bytes(),
        author: b"author".to_vec(),
        timestamp: 1000 + id as i64,
    }
}

fn graph(nodes: Vec<Changeset>) -> CommitGraph {
    CommitGraph { nodes }
}

fn eps(paths: &[&str]) -> Vec<RepoPath> {
    paths.iter().map(|p| path(p)).collect()
}

fn run(g: &CommitGraph, start: u64, paths: &[&str]) -> Result<TargetRepo, ExportError> {
    export(g, cid(start), &eps(paths))
}

fn must(g: &CommitGraph, start: u64, paths: &[&str]) -> TargetRepo {
    match run(g, start, paths) {
        Ok(t) => t,
        Err(_) => panic!("expected a successful export"),
    }
}

// ---- path parsing and prefix containment ----

#[test]
fn parse_accepts_leading_slash() {
    let p = path("/lib/scan");
    assert_eq!(p.segments.len(), 2);
    assert_eq!(p.segments[0], b"lib".to_vec());
    assert_eq!(p.segments[1], b"scan".to_vec());
}

#[test]
fn parse_without_leading_slash() {
    let p = path("lib");
    assert_eq!(p.segments.len(), 1);
    assert_eq!(p.segments[0], b"lib".to_vec());
}

#[test]
fn parse_rejects_empty() {
    assert!(matches!(
        RepoPath::parse(&b"".to_vec()),
        Err(ExportError::InvalidPath { .. })
    ));
    assert!(matches!(
        RepoPath::parse(&b"/".to_vec()),
        Err(ExportError::InvalidPath { .. })
    ));
}

#[test]
fn parse_rejects_empty_component() {
    assert!(matches!(
        RepoPath::parse(&b"a//b".to_vec()),
        Err(ExportError::InvalidPath { .. })
    ));
    assert!(matches!(
        RepoPath::parse(&b"lib/".to_vec()),
        Err(ExportError::InvalidPath { .. })
    ));
}

#[test]
fn parse_reports_offending_path() {
    match RepoPath::parse(&b"a//b".to_vec()) {
        Err(ExportError::InvalidPath { raw }) => assert_eq!(raw, b"a//b".to_vec()),
        _ => panic!("expected an invalid-path error"),
    }
}

#[test]
fn to_bytes_round_trip() {
    assert_eq!(path("/lib/scan").to_bytes(), b"lib/scan".to_vec());
    assert_eq!(path("lib").to_bytes(), b"lib".to_vec());
}

#[test]
fn prefix_is_segment_wise() {
    assert!(path("/lib/scan").starts_with(&path("/lib")));
    assert!(path("/lib").starts_with(&path("/lib")));
    assert!(!path("/library").starts_with(&path("/lib")));
    assert!(!path("/lib").starts_with(&path("/lib/scan")));
}

// ---- export-path validation ----

#[test]
fn validate_accepts_disjoint_paths() {
    assert!(validate_export_paths(&eps(&["/lib", "/docs"])).is_none());
}

#[test]
fn validate_rejects_nested_paths() {
    assert!(matches!(
        validate_export_paths(&eps(&["/lib", "/lib/scan"])),
        Some(ExportError::InvalidPath { .. })
    ));
}

#[test]
fn validate_rejects_duplicate_paths() {
    assert!(matches!(
        validate_export_paths(&eps(&["/lib", "/lib"])),
        Some(ExportError::InvalidPath { .. })
    ));
}

#[test]
fn export_rejects_empty_path_set() {
    let g = graph(vec![cs(1, &[], &["/lib/a"])]);
    assert!(matches!(run(&g, 1, &[]), Err(ExportError::InvalidPath { .. })));
}

// ---- graph consistency ----

#[test]
fn export_rejects_unknown_start() {
    let g = graph(vec![cs(1, &[], &["/lib/a"])]);
    assert!(matches!(
        run(&g, 9, &["/lib"]),
        Err(ExportError::GraphTraversal { .. })
    ));
}

#[test]
fn export_rejects_dangling_parent() {
    let g = graph(vec![cs(1, &[], &["/lib/a"]), cs(2, &[7], &["/lib/b"])]);
    assert!(matches!(
        run(&g, 2, &["/lib"]),
        Err(ExportError::GraphTraversal { .. })
    ));
}

#[test]
fn export_rejects_duplicate_ids() {
    let g = graph(vec![cs(1, &[], &["/lib/a"]), cs(1, &[], &["/lib/b"])]);
    assert!(matches!(
        run(&g, 1, &["/lib"]),
        Err(ExportError::GraphTraversal { .. })
    ));
}

#[test]
fn export_rejects_parent_after_child() {
    // a parent listed after its child breaks the topological order
    let g = graph(vec![cs(2, &[1], &["/lib/b"]), cs(1, &[], &["/lib/a"])]);
    assert!(matches!(
        run(&g, 2, &["/lib"]),
        Err(ExportError::GraphTraversal { .. })
    ));
}

// ---- scenarios ----

#[test]
fn linear_history_keeps_only_touching_changeset() {
    // C1 -> C2 -> C3, only C2 touches /lib: the result is one parentless
    // rewritten changeset carrying C2's content.
    let g = graph(vec![
        cs(1, &[], &["/readme"]),
        cs(2, &[1], &["/lib/a"]),
        cs(3, &[2], &["/docs/b"]),
    ]);
    let t = must(&g, 3, &["/lib"]);
    assert_eq!(t.changesets.len(), 1);
    assert!(t.changesets[0].parents.is_empty());
    assert_eq!(t.changesets[0].message, b"changeset 2".to_vec());
    assert_eq!(t.master.value, t.changesets[0].id.value);
}

#[test]
fn merge_drops_branch_that_never_touches() {
    // X touches /lib, Y touches /docs, M merges both and touches /lib:
    // the result holds rewritten X and rewritten M with one parent edge.
    let g = graph(vec![
        cs(1, &[], &["/lib/x"]),
        cs(2, &[], &["/docs/y"]),
        cs(3, &[1, 2], &["/lib/m"]),
    ]);
    let t = must(&g, 3, &["/lib"]);
    assert_eq!(t.changesets.len(), 2);
    assert_eq!(t.changesets[0].message, b"changeset 1".to_vec());
    assert_eq!(t.changesets[1].message, b"changeset 3".to_vec());
    assert_eq!(t.changesets[1].parents.len(), 1);
    assert_eq!(t.changesets[1].parents[0].value, t.changesets[0].id.value);
}

#[test]
fn no_exportable_history_is_an_error() {
    let g = graph(vec![cs(1, &[], &["/readme"]), cs(2, &[1], &["/docs/a"])]);
    match run(&g, 2, &["/lib"]) {
        Err(ExportError::NoExportableHistory { start }) => assert_eq!(start.value, 2),
        _ => panic!("expected a no-exportable-history error"),
    }
}

#[test]
fn copy_from_outside_degrades_to_addition() {
    // a copy whose source path lies outside the export set becomes a plain
    // addition in the rewritten changeset
    let copied = FileChangeEntry {
        path: path("/lib/dest"),
        change: FileChange::Copied {
            content: b"payload".to_vec(),
            from_path: path("/docs/src"),
            from_id: cid(1),
        },
    };
    let first = cs(1, &[], &["/docs/src"]);
    let second = Changeset {
        id: cid(2),
        parents: vec![cid(1)],
        file_changes: vec![copied],
        message: b"copying".to_vec(),
        author: b"author".to_vec(),
        timestamp: 7,
    };
    let g = graph(vec![first, second]);
    let t = must(&g, 2, &["/lib"]);
    assert_eq!(t.changesets.len(), 1);
    assert_eq!(t.changesets[0].file_changes.len(), 1);
    match &t.changesets[0].file_changes[0].change {
        FileChange::Added { content } => assert_eq!(content, &b"payload".to_vec()),
        _ => panic!("expected the copy to degrade to an addition"),
    }
}

#[test]
fn copy_inside_export_set_keeps_provenance() {
    let copied = FileChangeEntry {
        path: path("/lib/copy"),
        change: FileChange::Copied {
            content: b"payload".to_vec(),
            from_path: path("/lib/orig"),
            from_id: cid(1),
        },
    };
    let first = cs(1, &[], &["/lib/orig"]);
    let second = Changeset {
        id: cid(2),
        parents: vec![cid(1)],
        file_changes: vec![copied],
        message: b"copying".to_vec(),
        author: b"author".to_vec(),
        timestamp: 7,
    };
    let g = graph(vec![first, second]);
    let t = must(&g, 2, &["/lib"]);
    assert_eq!(t.changesets.len(), 2);
    match &t.changesets[1].file_changes[0].change {
        FileChange::Copied { from_id, from_path, .. } => {
            assert_eq!(from_id.value, t.changesets[0].id.value);
            assert_eq!(from_path.to_bytes(), b"lib/orig".to_vec());
        }
        _ => panic!("expected the copy to keep its provenance"),
    }
}

#[test]
fn merge_branches_resolving_to_one_ancestor_collapse() {
    // A touches /lib; B and C both descend from A without touching /lib;
    // their merge M resolves both branches to A: one parent edge, not two.
    let g = graph(vec![
        cs(1, &[], &["/lib/a"]),
        cs(2, &[1], &["/docs/b"]),
        cs(3, &[1], &["/other/c"]),
        cs(4, &[2, 3], &["/lib/m"]),
    ]);
    let t = must(&g, 4, &["/lib"]);
    assert_eq!(t.changesets.len(), 2);
    assert_eq!(t.changesets[1].parents.len(), 1);
    assert_eq!(t.changesets[1].parents[0].value, t.changesets[0].id.value);
}

// ---- general laws on concrete inputs ----

#[test]
fn rewritten_graph_is_self_contained() {
    // every parent reference points at an earlier rewritten changeset, and
    // ids are unique: the target is an acyclic, self-contained repository
    let g = graph(vec![
        cs(1, &[], &["/lib/x"]),
        cs(2, &[1], &["/docs/y"]),
        cs(3, &[2], &["/lib/z"]),
        cs(4, &[3, 1], &["/lib/w"]),
    ]);
    let t = must(&g, 4, &["/lib"]);
    for (m, c) in t.changesets.iter().enumerate() {
        for p in &c.parents {
            let referenced = t.changesets[..m].iter().any(|e| e.id.value == p.value);
            assert!(referenced, "parent must be an earlier rewritten changeset");
        }
        for other in &t.changesets[..m] {
            assert_ne!(other.id.value, c.id.value, "ids must be unique");
        }
    }
}

#[test]
fn ancestry_is_preserved() {
    // C1 (touches /lib) is an ancestor of C4 (touches /lib) through
    // untouched changesets: rewritten C1 stays an ancestor of rewritten C4.
    let g = graph(vec![
        cs(1, &[], &["/lib/a"]),
        cs(2, &[1], &["/docs/b"]),
        cs(3, &[2], &["/readme"]),
        cs(4, &[3], &["/lib/d"]),
    ]);
    let t = must(&g, 4, &["/lib"]);
    assert_eq!(t.changesets.len(), 2);
    assert_eq!(t.changesets[1].parents.len(), 1);
    assert_eq!(t.changesets[1].parents[0].value, t.changesets[0].id.value);
}

#[test]
fn export_is_idempotent() {
    let g = graph(vec![
        cs(1, &[], &["/lib/x"]),
        cs(2, &[], &["/docs/y"]),
        cs(3, &[1, 2], &["/lib/m"]),
    ]);
    let t1 = must(&g, 3, &["/lib"]);
    let t2 = must(&g, 3, &["/lib"]);
    assert_eq!(t1.changesets.len(), t2.changesets.len());
    assert_eq!(t1.master.value, t2.master.value);
    for (a, b) in t1.changesets.iter().zip(t2.changesets.iter()) {
        assert_eq!(a.id.value, b.id.value);
        assert_eq!(a.message, b.message);
        assert_eq!(a.timestamp, b.timestamp);
        assert_eq!(a.parents.len(), b.parents.len());
        for (pa, pb) in a.parents.iter().zip(b.parents.iter()) {
            assert_eq!(pa.value, pb.value);
        }
    }
}

#[test]
fn widening_export_paths_keeps_changesets() {
    let g = graph(vec![
        cs(1, &[], &["/readme"]),
        cs(2, &[1], &["/lib/a"]),
        cs(3, &[2], &["/docs/b"]),
    ]);
    let narrow = must(&g, 3, &["/lib"]);
    let wide = must(&g, 3, &["/lib", "/docs"]);
    assert_eq!(narrow.changesets.len(), 1);
    assert_eq!(wide.changesets.len(), 2);
    for kept in &narrow.changesets {
        assert!(
            wide.changesets.iter().any(|c| c.message == kept.message),
            "widening must not drop a changeset"
        );
    }
}

#[test]
fn file_changes_are_restricted_to_export_paths() {
    let g = graph(vec![cs(1, &[], &["/lib/a", "/docs/b", "/lib/deep/c"])]);
    let t = must(&g, 1, &["/lib"]);
    assert_eq!(t.changesets.len(), 1);
    let kept: Vec<Vec<u8>> = t.changesets[0]
        .file_changes
        .iter()
        .map(|e| e.path.to_bytes())
        .collect();
    assert_eq!(kept, vec![b"lib/a".to_vec(), b"lib/deep/c".to_vec()]);
}

#[test]
fn metadata_is_preserved() {
    let g = graph(vec![cs(1, &[], &["/lib/a"])]);
    let t = must(&g, 1, &["/lib"]);
    assert_eq!(t.changesets[0].message, b"changeset 1".to_vec());
    assert_eq!(t.changesets[0].author, b"author".to_vec());
    assert_eq!(t.changesets[0].timestamp, 1001);
}

#[test]
fn head_bookmark_resolves_to_last_changeset() {
    let g = graph(vec![cs(1, &[], &["/lib/a"]), cs(2, &[1], &["/lib/b"])]);
    let t = must(&g, 2, &["/lib"]);
    assert_eq!(t.changesets.len(), 2);
    assert_eq!(t.master.value, t.changesets[1].id.value);
}

#[test]
fn start_touching_counts_as_its_own_ancestor() {
    let g = graph(vec![cs(1, &[], &["/lib/a"])]);
    let t = must(&g, 1, &["/lib"]);
    assert_eq!(t.changesets.len(), 1);
    assert!(t.changesets[0].parents.is_empty());
}

#[test]
fn print_graph_args_defaults() {
    let args = PrintGraphArgs::default();
    assert!(args.source_graph_output.is_none());
    assert!(args.partial_graph_output.is_none());
    assert_eq!(args.distance_limit, 10);
}
