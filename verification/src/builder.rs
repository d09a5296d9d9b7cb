//! The partial graph builder: walks the ancestry of a starting changeset,
//! applies the path filter, and produces the included changesets in
//! topological order together with the re-linked parent relation.
//!
//! For every node the builder knows its set of nearest included ancestors:
//! the node itself when it is included, and otherwise the union over its
//! parents, in parent order, de-duplicated by id. The parent entry of an
//! included node is the de-duplicated concatenation of its parents' sets.

use vstd::prelude::*;

use crate::changeset::Changeset;
use crate::changeset::ChangesetId;
use crate::changeset::ChangesetView;
use crate::changeset::ids_contain;
use crate::errors::ExportError;
use crate::filter::changeset_included;
use crate::filter::is_included;
use crate::paths::paths_view;
use crate::graph::CommitGraph;
use crate::graph::anc_set;
use crate::graph::graph_wf;
use crate::graph::index_of_id;
use crate::graph::lemma_anc_bound;
use crate::graph::lemma_anc_first_step;
use crate::graph::lemma_anc_trans;
use crate::graph::lemma_anc_unfold;
use crate::graph::lemma_index_of_id_found;
use crate::graph::lemma_parent_idx_bounds;
use crate::graph::parent_idx;
use crate::paths::RepoPath;

verus! {

/// Keeps the first occurrence of each id, in order.
pub open spec fn dedup_ids(s: Seq<ChangesetId>) -> Seq<ChangesetId>
    decreases s.len(),
{
    if s.len() == 0 {
        Seq::empty()
    } else {
        let d = dedup_ids(s.drop_last());
        if d.contains(s.last()) {
            d
        } else {
            d.push(s.last())
        }
    }
}

/// De-duplication keeps membership and yields distinct elements.
pub proof fn lemma_dedup_ids(s: Seq<ChangesetId>)
    ensures
        forall|x: ChangesetId| dedup_ids(s).contains(x) <==> s.contains(x),
        forall|a: int, b: int|
            0 <= a < b < dedup_ids(s).len() ==> dedup_ids(s)[a] != dedup_ids(s)[b],
    decreases s.len(),
{
    if s.len() == 0 {
        assert forall|x: ChangesetId| dedup_ids(s).contains(x) implies s.contains(x) by {}
        assert(forall|x: ChangesetId| !s.contains(x));
    } else {
        let t = s.drop_last();
        lemma_dedup_ids(t);
        let d = dedup_ids(t);
        assert forall|x: ChangesetId| dedup_ids(s).contains(x) implies s.contains(x) by {
            if d.contains(x) {
                assert(t.contains(x));
                let m = choose|m: int| 0 <= m < t.len() && t[m] == x;
                assert(s[m] == x);
            } else {
                assert(x == s.last());
            }
        }
        assert forall|x: ChangesetId| s.contains(x) implies dedup_ids(s).contains(x) by {
            let m = choose|m: int| 0 <= m < s.len() && s[m] == x;
            if m < s.len() - 1 {
                assert(t[m] == x);
                assert(t.contains(x));
                assert(d.contains(x));
                if !d.contains(s.last()) {
                    let q = choose|q: int| 0 <= q < d.len() && d[q] == x;
                    assert(dedup_ids(s)[q] == x);
                }
            } else {
                if d.contains(s.last()) {
                } else {
                    assert(dedup_ids(s).last() == x);
                }
            }
        }
    }
}

/// Appending one element to the input either leaves the de-duplication
/// unchanged or appends that element.
pub proof fn lemma_dedup_push(s: Seq<ChangesetId>, x: ChangesetId)
    ensures
        dedup_ids(s).contains(x) ==> dedup_ids(s.push(x)) == dedup_ids(s),
        !dedup_ids(s).contains(x) ==> dedup_ids(s.push(x)) == dedup_ids(s).push(x),
{
    let q = s.push(x);
    assert(q.drop_last() =~= s);
    assert(q.last() == x);
}

/// The nearest included ancestors of node `i`: the node itself when included,
/// otherwise the union over its parents, in order, de-duplicated by id.
pub open spec fn nia(g: Seq<ChangesetView>, eps: Seq<Seq<Seq<u8>>>, i: int) -> Seq<ChangesetId>
    decreases i, g[i].parents.len() as int + 1,
        when 0 <= i < g.len() && graph_wf(g)
{
    if changeset_included(g[i], eps) {
        seq![g[i].id]
    } else {
        dedup_ids(nia_concat(g, eps, i, g[i].parents.len() as int))
    }
}

/// The concatenation of the nearest-included-ancestor sets of the first `k`
/// parents of node `i`, in parent order.
pub open spec fn nia_concat(g: Seq<ChangesetView>, eps: Seq<Seq<Seq<u8>>>, i: int, k: int) -> Seq<
    ChangesetId,
>
    decreases i, k,
        when 0 <= i < g.len() && graph_wf(g) && 0 <= k <= g[i].parents.len()
{
    if k <= 0 {
        Seq::empty()
    } else {
        proof {
            lemma_parent_idx_bounds(g, i, k - 1);
        }
        nia_concat(g, eps, i, k - 1) + nia(g, eps, parent_idx(g, i, k - 1))
    }
}

/// The re-linked parent entry of node `i`: the de-duplicated concatenation of
/// the nearest-included-ancestor sets of its parents.
pub open spec fn resolved_parents(g: Seq<ChangesetView>, eps: Seq<Seq<Seq<u8>>>, i: int) -> Seq<
    ChangesetId,
> {
    dedup_ids(nia_concat(g, eps, i, g[i].parents.len() as int))
}

/// Every id in a nearest-included-ancestor set names an included ancestor of
/// the node, no later than the node itself.
pub proof fn lemma_nia_elems(g: Seq<ChangesetView>, eps: Seq<Seq<Seq<u8>>>, i: int, m: int)
    requires
        graph_wf(g),
        0 <= i < g.len(),
        0 <= m < nia(g, eps, i).len(),
    ensures
        exists|j: int|
            0 <= j <= i && (#[trigger] g[j]).id == nia(g, eps, i)[m] && changeset_included(
                g[j],
                eps,
            ) && anc_set(g, i).contains(j),
    decreases i, g[i].parents.len() as int + 1,
{
    if changeset_included(g[i], eps) {
        lemma_anc_unfold(g, i, i);
        assert(g[i].id == nia(g, eps, i)[m] && changeset_included(g[i], eps) && anc_set(
            g,
            i,
        ).contains(i));
    } else {
        let plen = g[i].parents.len() as int;
        lemma_dedup_ids(nia_concat(g, eps, i, plen));
        let x = nia(g, eps, i)[m];
        assert(nia(g, eps, i).contains(x));
        assert(nia_concat(g, eps, i, plen).contains(x));
        lemma_nia_concat_elem(g, eps, i, plen, x);
    }
}

/// Every id in the parent concatenation names an included strict ancestor.
pub proof fn lemma_nia_concat_elem(
    g: Seq<ChangesetView>,
    eps: Seq<Seq<Seq<u8>>>,
    i: int,
    k: int,
    x: ChangesetId,
)
    requires
        graph_wf(g),
        0 <= i < g.len(),
        0 <= k <= g[i].parents.len(),
        nia_concat(g, eps, i, k).contains(x),
    ensures
        exists|j: int|
            0 <= j < i && (#[trigger] g[j]).id == x && changeset_included(g[j], eps) && anc_set(
                g,
                i,
            ).contains(j),
    decreases i, k,
{
    let c = nia_concat(g, eps, i, k);
    let prev = nia_concat(g, eps, i, k - 1);
    lemma_parent_idx_bounds(g, i, k - 1);
    let p = parent_idx(g, i, k - 1);
    let tail = nia(g, eps, p);
    let m = choose|m: int| 0 <= m < c.len() && c[m] == x;
    if m < prev.len() {
        assert(prev[m] == x);
        assert(prev.contains(x));
        lemma_nia_concat_elem(g, eps, i, k - 1, x);
    } else {
        assert(tail[m - prev.len()] == x);
        lemma_nia_elems(g, eps, p, m - prev.len());
        let j = choose|j: int|
            0 <= j <= p && (#[trigger] g[j]).id == x && changeset_included(g[j], eps) && anc_set(
                g,
                p,
            ).contains(j);
        lemma_anc_unfold(g, i, p);
        assert(anc_set(g, p).contains(p));
        assert(anc_set(g, i).contains(p));
        lemma_anc_trans(g, j, p, i);
    }
}

/// Whether node `i` belongs to the export: it is an ancestor of the start
/// (or the start itself) and touches an export path.
pub open spec fn in_export(
    g: Seq<ChangesetView>,
    eps: Seq<Seq<Seq<u8>>>,
    s: int,
    i: int,
) -> bool {
    0 <= i < g.len() && anc_set(g, s).contains(i) && changeset_included(g[i], eps)
}

/// The indices below `n` that belong to the export, in ascending
/// (topological) order.
pub open spec fn included_upto(
    g: Seq<ChangesetView>,
    eps: Seq<Seq<Seq<u8>>>,
    s: int,
    n: int,
) -> Seq<int>
    decreases n,
{
    if n <= 0 {
        Seq::empty()
    } else if in_export(g, eps, s, n - 1) {
        included_upto(g, eps, s, n - 1).push(n - 1)
    } else {
        included_upto(g, eps, s, n - 1)
    }
}

/// All indices that belong to the export, in topological order.
pub open spec fn included_seq(g: Seq<ChangesetView>, eps: Seq<Seq<Seq<u8>>>, s: int) -> Seq<int> {
    included_upto(g, eps, s, g.len() as int)
}

/// The position an included node will take in the reduced graph: the number
/// of included indices strictly below it.
pub open spec fn incl_pos(g: Seq<ChangesetView>, eps: Seq<Seq<Seq<u8>>>, s: int, i: int) -> int {
    included_upto(g, eps, s, i).len() as int
}

/// Shape of the included-index sequence: it is ascending, holds exactly the
/// included indices below `n`, and each included index `i` stands at position
/// `incl_pos(i)`.
pub proof fn lemma_included_upto(g: Seq<ChangesetView>, eps: Seq<Seq<Seq<u8>>>, s: int, n: int)
    ensures
        forall|m: int|
            0 <= m < included_upto(g, eps, s, n).len() ==> 0 <= #[trigger] included_upto(
                g,
                eps,
                s,
                n,
            )[m] < n && in_export(g, eps, s, included_upto(g, eps, s, n)[m]) && incl_pos(
                g,
                eps,
                s,
                included_upto(g, eps, s, n)[m],
            ) == m,
        forall|i: int|
            0 <= i < n && in_export(g, eps, s, i) ==> 0 <= incl_pos(g, eps, s, i)
                < included_upto(g, eps, s, n).len() && included_upto(g, eps, s, n)[incl_pos(
                g,
                eps,
                s,
                i,
            )] == i,
    decreases n,
{
    if n <= 0 {
    } else {
        lemma_included_upto(g, eps, s, n - 1);
        let prev = included_upto(g, eps, s, n - 1);
        let cur = included_upto(g, eps, s, n);
        assert forall|i: int|
            0 <= i < n && in_export(g, eps, s, i) implies 0 <= incl_pos(g, eps, s, i) < cur.len()
            && cur[incl_pos(g, eps, s, i)] == i by {
            if i < n - 1 {
                assert(prev[incl_pos(g, eps, s, i)] == i);
            }
        }
    }
}

/// Positions are monotone: an earlier included index stands earlier.
pub proof fn lemma_incl_pos_monotone(
    g: Seq<ChangesetView>,
    eps: Seq<Seq<Seq<u8>>>,
    s: int,
    a: int,
    b: int,
)
    requires
        a <= b,
    ensures
        incl_pos(g, eps, s, a) <= incl_pos(g, eps, s, b),
        in_export(g, eps, s, a) && a < b ==> incl_pos(g, eps, s, a) < incl_pos(g, eps, s, b),
    decreases b - a,
{
    if a < b {
        lemma_incl_pos_monotone(g, eps, s, a, b - 1);
    }
}

/// Above the start nothing is included, so the included sequence is already
/// complete at `s + 1`.
pub proof fn lemma_included_stable(g: Seq<ChangesetView>, eps: Seq<Seq<Seq<u8>>>, s: int, n: int)
    requires
        graph_wf(g),
        0 <= s < g.len(),
        s < n <= g.len(),
    ensures
        included_upto(g, eps, s, n) == included_upto(g, eps, s, s + 1),
    decreases n,
{
    if n == s + 1 {
    } else {
        lemma_included_stable(g, eps, s, n - 1);
        if in_export(g, eps, s, n - 1) {
            lemma_anc_bound(g, s, n - 1);
        }
    }
}

/// The reduced history: the included changesets of one export run in
/// topological order, and for each its re-linked parent ids (ids of earlier
/// entries of the same list).
pub struct PartialGraph {
    pub changesets: Vec<Changeset>,
    pub parents: Vec<Vec<ChangesetId>>,
}

/// The views of a sequence of changesets.
pub open spec fn cs_views(cs: Seq<Changeset>) -> Seq<ChangesetView> {
    cs.map(|i: int, c: Changeset| c@)
}

/// The views of a sequence of id lists.
pub open spec fn id_seq_views(ps: Seq<Vec<ChangesetId>>) -> Seq<Seq<ChangesetId>> {
    ps.map(|i: int, v: Vec<ChangesetId>| v@)
}

/// The reduced history that one export run over `gv`, `eps` and start index
/// `s` must produce: entry `m` is the `m`-th included changeset, unchanged,
/// with its re-linked parent entry.
pub open spec fn build_matches(
    csv: Seq<ChangesetView>,
    psv: Seq<Seq<ChangesetId>>,
    gv: Seq<ChangesetView>,
    eps: Seq<Seq<Seq<u8>>>,
    s: int,
) -> bool {
    let incl = included_seq(gv, eps, s);
    &&& csv.len() == incl.len()
    &&& psv.len() == incl.len()
    &&& forall|m: int|
        0 <= m < incl.len() ==> (#[trigger] csv[m]) == gv[incl[m]] && psv[m] == resolved_parents(
            gv,
            eps,
            incl[m],
        )
}

impl PartialGraph {
    /// The view of the held changesets.
    pub open spec fn changesets_view(&self) -> Seq<ChangesetView> {
        cs_views(self.changesets@)
    }

    /// The view of the held parent entries.
    pub open spec fn parents_view(&self) -> Seq<Seq<ChangesetId>> {
        id_seq_views(self.parents@)
    }
}

/// The reduced history is itself a well-formed graph: its ids are distinct,
/// every re-linked parent entry holds ids of strictly earlier entries only,
/// and no entry holds the same parent twice (a merge whose branches resolve
/// to one nearest included ancestor collapses to a single parent edge).
pub proof fn lemma_partial_graph_wf(
    csv: Seq<ChangesetView>,
    psv: Seq<Seq<ChangesetId>>,
    gv: Seq<ChangesetView>,
    eps: Seq<Seq<Seq<u8>>>,
    s: int,
)
    requires
        graph_wf(gv),
        0 <= s < gv.len(),
        build_matches(csv, psv, gv, eps, s),
    ensures
        forall|a: int, b: int|
            0 <= a < b < csv.len() ==> (#[trigger] csv[a]).id != (#[trigger] csv[b]).id,
        forall|m: int, e: int|
            0 <= m < psv.len() && 0 <= e < psv[m].len() ==> 0 <= index_of_id(
                csv,
                #[trigger] psv[m][e],
            ) < m,
        forall|m: int, e1: int, e2: int|
            #![trigger psv[m][e1], psv[m][e2]]
            0 <= m < psv.len() && 0 <= e1 < e2 < psv[m].len() ==> psv[m][e1] != psv[m][e2],
{
    let incl = included_seq(gv, eps, s);
    lemma_included_upto(gv, eps, s, gv.len() as int);
    assert forall|a: int, b: int|
        0 <= a < b < csv.len() implies (#[trigger] csv[a]).id != (#[trigger] csv[b]).id by {
        assert(csv[a] == gv[incl[a]]);
        assert(csv[b] == gv[incl[b]]);
        assert(incl_pos(gv, eps, s, incl[a]) == a);
        assert(incl_pos(gv, eps, s, incl[b]) == b);
        if incl[a] > incl[b] {
            lemma_incl_pos_monotone(gv, eps, s, incl[b], incl[a]);
            assert(false);
        }
        assert(incl[a] < incl[b]);
    }
    assert forall|m: int, e: int|
        0 <= m < psv.len() && 0 <= e < psv[m].len() implies 0 <= index_of_id(
        csv,
        #[trigger] psv[m][e],
    ) < m by {
        let i = incl[m];
        assert(csv[m] == gv[incl[m]]);
        assert(in_export(gv, eps, s, i));
        let x = psv[m][e];
        assert(resolved_parents(gv, eps, i)[e] == x);
        lemma_dedup_ids(nia_concat(gv, eps, i, gv[i].parents.len() as int));
        assert(resolved_parents(gv, eps, i).contains(x));
        assert(nia_concat(gv, eps, i, gv[i].parents.len() as int).contains(x));
        lemma_nia_concat_elem(gv, eps, i, gv[i].parents.len() as int, x);
        let j = choose|j: int|
            0 <= j < i && (#[trigger] gv[j]).id == x && changeset_included(gv[j], eps) && anc_set(
                gv,
                i,
            ).contains(j);
        lemma_anc_trans(gv, j, i, s);
        assert(in_export(gv, eps, s, j));
        lemma_incl_pos_monotone(gv, eps, s, j, i);
        let pj = incl_pos(gv, eps, s, j);
        let pm = incl_pos(gv, eps, s, i);
        assert(pm == m);
        assert(incl[pj] == j);
        assert(csv[pj].id == x);
        assert forall|q: int| 0 <= q < pj implies (#[trigger] csv[q]).id != x by {
            if csv[q].id == x {
                lemma_incl_pos_monotone(gv, eps, s, incl[q], incl[pj]);
                lemma_incl_pos_monotone(gv, eps, s, incl[pj], incl[q]);
                assert(gv[incl[q]].id == gv[j].id);
                if incl[q] != j {
                    assert(false);
                }
            }
        }
        lemma_index_of_id_found(csv, x, pj);
    }
    assert forall|m: int, e1: int, e2: int|
        #![trigger psv[m][e1], psv[m][e2]]
        0 <= m < psv.len() && 0 <= e1 < e2 < psv[m].len() implies psv[m][e1] != psv[m][e2] by {
        let i = incl[m];
        assert(csv[m] == gv[incl[m]]);
        assert(psv[m] == resolved_parents(gv, eps, i));
        lemma_dedup_ids(nia_concat(gv, eps, i, gv[i].parents.len() as int));
        assert(resolved_parents(gv, eps, i)[e1] != resolved_parents(gv, eps, i)[e2]);
    }
}

/// Walks the ancestry of `start`, applies the path filter, and returns the
/// included changesets in topological order with their re-linked parents.
/// Fails with a traversal error when the graph is inconsistent or `start`
/// unknown, and with a no-exportable-history error when nothing in the
/// ancestry of `start` (itself included) touches an export path.
#[verifier::loop_isolation(false)]
pub fn build_partial_commit_graph_for_export(
    graph: &CommitGraph,
    start: ChangesetId,
    export_paths: &Vec<RepoPath>,
) -> (r: Result<PartialGraph, ExportError>)
    ensures
        ({
            let gv = graph@;
            let eps = paths_view(export_paths@);
            let s = index_of_id(gv, start);
            match r {
                Ok(pg) => graph_wf(gv) && s >= 0 && included_seq(gv, eps, s).len() > 0
                    && build_matches(pg.changesets_view(), pg.parents_view(), gv, eps, s),
                Err(e) => match e {
                    ExportError::GraphTraversal { id } => !graph_wf(gv) || s < 0,
                    ExportError::NoExportableHistory { start: st } => graph_wf(gv) && s >= 0
                        && included_seq(gv, eps, s).len() == 0 && st == start,
                    _ => false,
                },
            }
        }),
{
    let ghost gv = graph@;
    let ghost eps = paths_view(export_paths@);
    proof {
        assert(forall|m: int| 0 <= m < gv.len() ==> (#[trigger] gv[m]) == graph.nodes@[m]@);
    }
    if let Some(bad) = graph.check() {
        return Err(ExportError::GraphTraversal { id: bad });
    }
    let s_idx: usize = match graph.find_index(start) {
        Some(j) => j,
        None => {
            return Err(ExportError::GraphTraversal { id: start });
        },
    };
    let ghost s = s_idx as int;
    let n = graph.len();

    // Mark the ancestry of the start, walking children before parents.
    let mut reach: Vec<bool> = Vec::new();
    let mut t: usize = 0;
    while t < n
        invariant
            t <= n,
            reach@.len() == t,
            forall|j: int| 0 <= j < t ==> !(#[trigger] reach@[j]),
        decreases n - t,
    {
        reach.push(false);
        t = t + 1;
    }
    reach.set(s_idx, true);
    proof {
        lemma_anc_unfold(gv, s, s);
        assert forall|j: int| s < j < n implies !anc_set(gv, s).contains(j) by {
            if anc_set(gv, s).contains(j) {
                lemma_anc_bound(gv, s, j);
            }
        }
    }
    let mut i: usize = s_idx + 1;
    while i > 0
        invariant
            i <= s_idx + 1,
            reach@.len() == n,
            reach@[s as int],
            forall|j: int| i <= j < n ==> reach@[j] == anc_set(gv, s).contains(j),
            forall|j: int| 0 <= j < i ==> ((#[trigger] reach@[j]) ==> anc_set(gv, s).contains(j)),
            forall|c: int, k: int|
                i <= c < n && reach@[c] && 0 <= k < gv[c].parents.len() ==> reach@[
                    #[trigger] parent_idx(gv, c, k)
                ],
        decreases i,
    {
        i = i - 1;
        if reach[i] {
            let parents_len = graph.nodes[i].parents.len();
            let mut k: usize = 0;
            while k < parents_len
                invariant
                    k <= parents_len,
                    parents_len == gv[i as int].parents.len(),
                    reach@.len() == n,
                    reach@[s as int],
                    reach@[i as int],
                    forall|kk: int|
                        0 <= kk < k ==> reach@[#[trigger] parent_idx(gv, i as int, kk)],
                    forall|j: int| i < j < n ==> reach@[j] == anc_set(gv, s).contains(j),
                    forall|j: int|
                        0 <= j <= i ==> ((#[trigger] reach@[j]) ==> anc_set(gv, s).contains(j)),
                    forall|c: int, k2: int|
                        i < c < n && reach@[c] && 0 <= k2 < gv[c].parents.len() ==> reach@[
                            #[trigger] parent_idx(gv, c, k2)
                        ],
                decreases parents_len - k,
            {
                let pid = graph.nodes[i].parents[k];
                proof {
                    assert(pid == gv[i as int].parents[k as int]);
                    lemma_parent_idx_bounds(gv, i as int, k as int);
                }
                let pi: usize = match graph.find_index(pid) {
                    Some(pi) => pi,
                    // a parent of a well-formed graph always resolves
                    None => vstd::pervasive::unreached(),
                };
                proof {
                    assert(pi as int == parent_idx(gv, i as int, k as int));
                    // the parent of a marked ancestor is an ancestor
                    lemma_anc_unfold(gv, pi as int, pi as int);
                    lemma_anc_unfold(gv, i as int, pi as int);
                    lemma_anc_trans(gv, pi as int, i as int, s);
                }
                reach.set(pi, true);
                k = k + 1;
            }
        } else {
            proof {
                if anc_set(gv, s).contains(i as int) {
                    assert(i as int != s);
                    lemma_anc_first_step(gv, s, i as int);
                    let (c, k): (int, int) = choose|c: int, k: int|
                        0 <= c < gv.len() && 0 <= k < gv[c].parents.len() && #[trigger] parent_idx(
                            gv,
                            c,
                            k,
                        ) == i as int && anc_set(gv, s).contains(c);
                    lemma_parent_idx_bounds(gv, c, k);
                    assert(reach@[c]);
                    assert(false);
                }
            }
        }
    }

    // Bottom-up pass: nearest included ancestors for every reachable node,
    // collecting the included changesets and their re-linked parents.
    let mut nias: Vec<Vec<ChangesetId>> = Vec::new();
    let mut out_cs: Vec<Changeset> = Vec::new();
    let mut out_ps: Vec<Vec<ChangesetId>> = Vec::new();
    let mut i: usize = 0;
    while i <= s_idx
        invariant
            i <= s_idx + 1,
            nias@.len() == i,
            reach@.len() == n,
            forall|j: int| 0 <= j < n ==> reach@[j] == anc_set(gv, s).contains(j),
            forall|j: int|
                0 <= j < i && reach@[j] ==> (#[trigger] nias@[j])@ == nia(gv, eps, j),
            out_cs@.len() == included_upto(gv, eps, s, i as int).len(),
            out_ps@.len() == included_upto(gv, eps, s, i as int).len(),
            forall|m: int|
                0 <= m < out_cs@.len() ==> ((#[trigger] out_cs@[m])@ == gv[included_upto(
                    gv,
                    eps,
                    s,
                    i as int,
                )[m]] && out_ps@[m]@ == resolved_parents(
                    gv,
                    eps,
                    included_upto(gv, eps, s, i as int)[m],
                )),
        decreases s_idx + 1 - i,
    {
        if reach[i] {
            let parents_len = graph.nodes[i].parents.len();
            let mut resolved: Vec<ChangesetId> = Vec::new();
            let mut k: usize = 0;
            while k < parents_len
                invariant
                    k <= parents_len,
                    i <= s_idx,
                    parents_len == gv[i as int].parents.len(),
                    resolved@ == dedup_ids(nia_concat(gv, eps, i as int, k as int)),
                decreases parents_len - k,
            {
                let pid = graph.nodes[i].parents[k];
                proof {
                    assert(pid == gv[i as int].parents[k as int]);
                    lemma_parent_idx_bounds(gv, i as int, k as int);
                }
                let pi: usize = match graph.find_index(pid) {
                    Some(pi) => pi,
                    // a parent of a well-formed graph always resolves
                    None => vstd::pervasive::unreached(),
                };
                proof {
                    assert(pi as int == parent_idx(gv, i as int, k as int));
                    lemma_anc_unfold(gv, pi as int, pi as int);
                    lemma_anc_unfold(gv, i as int, pi as int);
                    lemma_anc_trans(gv, pi as int, i as int, s);
                    assert(reach@[pi as int]);
                    assert(nias@[pi as int]@ == nia(gv, eps, pi as int));
                }
                let ghost base = nia_concat(gv, eps, i as int, k as int);
                let ghost pn_view = nia(gv, eps, pi as int);
                let mut m: usize = 0;
                while m < nias[pi].len()
                    invariant
                        m <= pn_view.len(),
                        pi < nias@.len(),
                        nias@[pi as int]@ == pn_view,
                        resolved@ == dedup_ids(base + pn_view.take(m as int)),
                    decreases pn_view.len() - m,
                {
                    let e = nias[pi][m];
                    proof {
                        assert(e == pn_view[m as int]);
                        lemma_dedup_push(base + pn_view.take(m as int), e);
                        assert((base + pn_view.take(m as int)).push(e) =~= base + pn_view.take(
                            m as int + 1,
                        ));
                    }
                    if !ids_contain(&resolved, e) {
                        resolved.push(e);
                    }
                    m = m + 1;
                }
                proof {
                    assert(pn_view.take(pn_view.len() as int) =~= pn_view);
                    assert(nia_concat(gv, eps, i as int, k as int + 1) == base + pn_view);
                }
                k = k + 1;
            }
            proof {
                assert(resolved@ == resolved_parents(gv, eps, i as int));
            }
            let node = &graph.nodes[i];
            proof {
                assert(node@ == gv[i as int]);
            }
            if is_included(node, export_paths) {
                proof {
                    assert(in_export(gv, eps, s, i as int));
                }
                out_cs.push(node.duplicate());
                out_ps.push(resolved);
                let mut nv: Vec<ChangesetId> = Vec::new();
                nv.push(node.id);
                proof {
                    assert(nv@ =~= seq![gv[i as int].id]);
                }
                nias.push(nv);
            } else {
                proof {
                    assert(!in_export(gv, eps, s, i as int));
                }
                nias.push(resolved);
            }
        } else {
            proof {
                assert(!in_export(gv, eps, s, i as int));
            }
            let nv: Vec<ChangesetId> = Vec::new();
            nias.push(nv);
        }
        i = i + 1;
    }
    proof {
        lemma_included_stable(gv, eps, s, n as int);
    }
    if out_cs.len() == 0 {
        return Err(ExportError::NoExportableHistory { start });
    }
    Ok(PartialGraph { changesets: out_cs, parents: out_ps })
}

} // verus!
