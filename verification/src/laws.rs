//! The laws of the export, proved once and for all: the rewritten graph is a
//! well-formed DAG, ancestry is preserved, the export is deterministic, the
//! path filter is monotone, and merge branches that resolve to one nearest
//! included ancestor collapse to a single parent edge.

use vstd::prelude::*;

use crate::builder::build_matches;
use crate::builder::in_export;
use crate::builder::incl_pos;
use crate::builder::included_seq;
use crate::builder::lemma_dedup_ids;
use crate::builder::lemma_included_upto;
use crate::builder::lemma_partial_graph_wf;
use crate::builder::nia;
use crate::builder::nia_concat;
use crate::builder::resolved_parents;
use crate::changeset::ChangesetId;
use crate::changeset::ChangesetView;
use crate::filter::changeset_included;
use crate::filter::path_exported;
use crate::graph::anc_set;
use crate::graph::graph_wf;
use crate::graph::index_of_id;
use crate::graph::lemma_anc_bound;
use crate::graph::lemma_anc_trans;
use crate::graph::lemma_anc_unfold;
use crate::graph::lemma_index_of_id_found;
use crate::graph::lemma_parent_idx_bounds;
use crate::graph::parent_idx;
use crate::paths::path_under;
use crate::rewriter::fresh_id;
use crate::rewriter::remap_ids;
use crate::rewriter::rewrite_matches;
use crate::rewriter::rewritten_changeset;
use crate::export::target_changesets;

verus! {

/// An id bound under which sequentially allocated ids stay distinct.
pub open spec fn fits_ids(n: int) -> bool {
    n <= 0xffff_ffff_ffff_ffff
}

/// Within the reduced history, the id of included node `j` stands exactly at
/// the node's position.
proof fn lemma_csv_index_of(
    csv: Seq<ChangesetView>,
    psv: Seq<Seq<ChangesetId>>,
    gv: Seq<ChangesetView>,
    eps: Seq<Seq<Seq<u8>>>,
    s: int,
    j: int,
)
    requires
        graph_wf(gv),
        0 <= s < gv.len(),
        build_matches(csv, psv, gv, eps, s),
        in_export(gv, eps, s, j),
    ensures
        0 <= incl_pos(gv, eps, s, j) < csv.len(),
        included_seq(gv, eps, s)[incl_pos(gv, eps, s, j)] == j,
        csv[incl_pos(gv, eps, s, j)] == gv[j],
        index_of_id(csv, gv[j].id) == incl_pos(gv, eps, s, j),
{
    let incl = included_seq(gv, eps, s);
    lemma_included_upto(gv, eps, s, gv.len() as int);
    lemma_anc_bound(gv, s, j);
    let pj = incl_pos(gv, eps, s, j);
    assert(incl[pj] == j);
    assert(csv[pj] == gv[incl[pj]]);
    assert forall|q: int| 0 <= q < pj implies (#[trigger] csv[q]).id != gv[j].id by {
        assert(csv[q] == gv[incl[q]]);
        if incl[q] == j {
            assert(incl_pos(gv, eps, s, incl[q]) == q);
            assert(false);
        }
    }
    lemma_index_of_id_found(csv, gv[j].id, pj);
}

/// In the target every id is the position it stands at.
proof fn lemma_tv_index(tv: Seq<ChangesetView>, j: int)
    requires
        fits_ids(tv.len() as int),
        forall|q: int| 0 <= q < tv.len() ==> (#[trigger] tv[q]).id == fresh_id(q),
        0 <= j < tv.len(),
    ensures
        index_of_id(tv, fresh_id(j)) == j,
{
    assert forall|q: int| 0 <= q < j implies (#[trigger] tv[q]).id != fresh_id(j) by {
        assert(tv[q].id == fresh_id(q));
        assert(0 <= q < j < 0x1_0000_0000_0000_0000);
        assert(q as u64 != j as u64);
    }
    lemma_index_of_id_found(tv, fresh_id(j), j);
}

/// Membership in a parent concatenation is kept as the concatenation grows.
proof fn lemma_nia_concat_mono(
    gv: Seq<ChangesetView>,
    eps: Seq<Seq<Seq<u8>>>,
    i: int,
    k: int,
    k2: int,
    x: ChangesetId,
)
    requires
        graph_wf(gv),
        0 <= i < gv.len(),
        0 <= k <= k2 <= gv[i].parents.len(),
        nia_concat(gv, eps, i, k).contains(x),
    ensures
        nia_concat(gv, eps, i, k2).contains(x),
    decreases k2 - k,
{
    if k2 > k {
        lemma_nia_concat_mono(gv, eps, i, k, k2 - 1, x);
        let prev = nia_concat(gv, eps, i, k2 - 1);
        let q = choose|q: int| 0 <= q < prev.len() && prev[q] == x;
        assert(nia_concat(gv, eps, i, k2)[q] == x);
    }
}

/// What stands in a parent's nearest-included-ancestor set stands in the
/// concatenation that includes this parent.
proof fn lemma_nia_parent_sub(
    gv: Seq<ChangesetView>,
    eps: Seq<Seq<Seq<u8>>>,
    i: int,
    k: int,
    x: ChangesetId,
)
    requires
        graph_wf(gv),
        0 <= i < gv.len(),
        0 <= k < gv[i].parents.len(),
        nia(gv, eps, parent_idx(gv, i, k)).contains(x),
    ensures
        nia_concat(gv, eps, i, k + 1).contains(x),
{
    let prev = nia_concat(gv, eps, i, k);
    let tail = nia(gv, eps, parent_idx(gv, i, k));
    let q = choose|q: int| 0 <= q < tail.len() && tail[q] == x;
    assert(nia_concat(gv, eps, i, k + 1)[prev.len() + q] == x);
}

/// The induced rewritten graph is well formed: ids are unique, every parent
/// reference resolves to a strictly earlier rewritten changeset (so there is
/// no dangling reference and no cycle), and no changeset carries the same
/// parent edge twice — a merge whose branches resolve to one nearest included
/// ancestor collapses to a single edge.
pub proof fn lemma_rewritten_graph_well_formed(
    tv: Seq<ChangesetView>,
    csv: Seq<ChangesetView>,
    psv: Seq<Seq<ChangesetId>>,
    gv: Seq<ChangesetView>,
    eps: Seq<Seq<Seq<u8>>>,
    s: int,
)
    requires
        graph_wf(gv),
        0 <= s < gv.len(),
        build_matches(csv, psv, gv, eps, s),
        rewrite_matches(tv, csv, psv, eps),
        fits_ids(csv.len() as int),
    ensures
        graph_wf(tv),
        forall|m: int, k: int|
            0 <= m < tv.len() && 0 <= k < tv[m].parents.len() ==> 0 <= #[trigger] parent_idx(
                tv,
                m,
                k,
            ) < m,
        forall|a: int, d: int|
            0 <= a < tv.len() && 0 <= d < tv.len() && anc_set(tv, d).contains(a) && anc_set(
                tv,
                a,
            ).contains(d) ==> a == d,
        forall|m: int, k1: int, k2: int|
            #![trigger tv[m].parents[k1], tv[m].parents[k2]]
            0 <= m < tv.len() && 0 <= k1 < k2 < tv[m].parents.len() ==> tv[m].parents[k1]
                != tv[m].parents[k2],
{
    lemma_partial_graph_wf(csv, psv, gv, eps, s);
    assert forall|q: int| 0 <= q < tv.len() implies (#[trigger] tv[q]).id == fresh_id(q) by {
        assert(tv[q] == rewritten_changeset(csv[q], q, psv[q], eps, csv));
    }
    assert forall|a: int, b: int|
        0 <= a < b < tv.len() implies (#[trigger] tv[a]).id != (#[trigger] tv[b]).id by {
        assert(0 <= a < b < 0x1_0000_0000_0000_0000);
        assert(a as u64 != b as u64);
    }
    assert forall|m: int, k: int|
        0 <= m < tv.len() && 0 <= k < tv[m].parents.len() implies 0 <= #[trigger] parent_idx(
        tv,
        m,
        k,
    ) < m by {
        assert(tv[m] == rewritten_changeset(csv[m], m, psv[m], eps, csv));
        assert(tv[m].parents == remap_ids(csv, psv[m]));
        assert(tv[m].parents[k] == fresh_id(index_of_id(csv, psv[m][k])));
        let j = index_of_id(csv, psv[m][k]);
        assert(0 <= j < m);
        lemma_tv_index(tv, j);
    }
    assert(graph_wf(tv));
    assert forall|a: int, d: int|
        0 <= a < tv.len() && 0 <= d < tv.len() && anc_set(tv, d).contains(a) && anc_set(
            tv,
            a,
        ).contains(d) implies a == d by {
        lemma_anc_bound(tv, d, a);
        lemma_anc_bound(tv, a, d);
    }
    assert forall|m: int, k1: int, k2: int|
        #![trigger tv[m].parents[k1], tv[m].parents[k2]]
        0 <= m < tv.len() && 0 <= k1 < k2 < tv[m].parents.len() implies tv[m].parents[k1]
        != tv[m].parents[k2] by {
        assert(tv[m] == rewritten_changeset(csv[m], m, psv[m], eps, csv));
        assert(tv[m].parents[k1] == fresh_id(index_of_id(csv, psv[m][k1])));
        assert(tv[m].parents[k2] == fresh_id(index_of_id(csv, psv[m][k2])));
        assert(psv[m][k1] != psv[m][k2]);
        let j1 = index_of_id(csv, psv[m][k1]);
        let j2 = index_of_id(csv, psv[m][k2]);
        assert(0 <= j1 < m && 0 <= j2 < m);
        if j1 == j2 {
            crate::graph::lemma_index_of_id(csv, psv[m][k1]);
            crate::graph::lemma_index_of_id(csv, psv[m][k2]);
            assert(csv[j1].id == psv[m][k1]);
            assert(csv[j2].id == psv[m][k2]);
            assert(false);
        }
        assert(j1 as u64 != j2 as u64);
    }
}

/// One target edge: when the id of included node `jn` stands in the
/// re-linked parent entry of included node `b`, everything the rewritten
/// `jn` reaches in the target, the rewritten `b` reaches too.
proof fn lemma_target_edge(
    tv: Seq<ChangesetView>,
    csv: Seq<ChangesetView>,
    psv: Seq<Seq<ChangesetId>>,
    gv: Seq<ChangesetView>,
    eps: Seq<Seq<Seq<u8>>>,
    s: int,
    b: int,
    jn: int,
    pa: int,
)
    requires
        graph_wf(gv),
        0 <= s < gv.len(),
        build_matches(csv, psv, gv, eps, s),
        rewrite_matches(tv, csv, psv, eps),
        fits_ids(csv.len() as int),
        graph_wf(tv),
        in_export(gv, eps, s, b),
        in_export(gv, eps, s, jn),
        resolved_parents(gv, eps, b).contains(gv[jn].id),
        anc_set(tv, incl_pos(gv, eps, s, jn)).contains(pa),
    ensures
        anc_set(tv, incl_pos(gv, eps, s, b)).contains(pa),
{
    lemma_csv_index_of(csv, psv, gv, eps, s, b);
    lemma_csv_index_of(csv, psv, gv, eps, s, jn);
    let pb = incl_pos(gv, eps, s, b);
    let pjn = incl_pos(gv, eps, s, jn);
    assert(psv[pb] == resolved_parents(gv, eps, b));
    let e = choose|e: int| 0 <= e < psv[pb].len() && psv[pb][e] == gv[jn].id;
    assert(tv[pb] == rewritten_changeset(csv[pb], pb, psv[pb], eps, csv));
    assert(tv[pb].parents == remap_ids(csv, psv[pb]));
    assert(tv[pb].parents[e] == fresh_id(index_of_id(csv, gv[jn].id)));
    assert(tv[pb].parents[e] == fresh_id(pjn));
    assert forall|q: int| 0 <= q < tv.len() implies (#[trigger] tv[q]).id == fresh_id(q) by {
        assert(tv[q] == rewritten_changeset(csv[q], q, psv[q], eps, csv));
    }
    lemma_tv_index(tv, pjn);
    assert(parent_idx(tv, pb, e) == pjn);
    lemma_anc_unfold(tv, pb, pa);
}

/// Climbing from any reachable node `x`, some nearest included ancestor of
/// `x` already reaches the rewritten `a` in the target.
proof fn lemma_target_reaches(
    tv: Seq<ChangesetView>,
    csv: Seq<ChangesetView>,
    psv: Seq<Seq<ChangesetId>>,
    gv: Seq<ChangesetView>,
    eps: Seq<Seq<Seq<u8>>>,
    s: int,
    a: int,
    x: int,
)
    requires
        graph_wf(gv),
        0 <= s < gv.len(),
        build_matches(csv, psv, gv, eps, s),
        rewrite_matches(tv, csv, psv, eps),
        fits_ids(csv.len() as int),
        graph_wf(tv),
        in_export(gv, eps, s, a),
        0 <= x < gv.len(),
        anc_set(gv, s).contains(x),
        anc_set(gv, x).contains(a),
    ensures
        exists|jn: int|
            0 <= jn <= x && #[trigger] in_export(gv, eps, s, jn) && nia(gv, eps, x).contains(
                gv[jn].id,
            ) && anc_set(tv, incl_pos(gv, eps, s, jn)).contains(incl_pos(gv, eps, s, a)),
    decreases x,
{
    let pa = incl_pos(gv, eps, s, a);
    lemma_csv_index_of(csv, psv, gv, eps, s, a);
    if changeset_included(gv[x], eps) {
        assert(in_export(gv, eps, s, x));
        lemma_csv_index_of(csv, psv, gv, eps, s, x);
        let px = incl_pos(gv, eps, s, x);
        assert(nia(gv, eps, x)[0] == gv[x].id);
        assert(nia(gv, eps, x).contains(gv[x].id));
        if a == x {
            lemma_anc_unfold(tv, px, px);
            assert(in_export(gv, eps, s, x) && nia(gv, eps, x).contains(gv[x].id) && anc_set(
                tv,
                incl_pos(gv, eps, s, x),
            ).contains(pa));
        } else {
            lemma_anc_unfold(gv, x, a);
            let k = choose|k: int|
                0 <= k < gv[x].parents.len() && anc_set(gv, #[trigger] parent_idx(gv, x, k))
                    .contains(a);
            lemma_parent_idx_bounds(gv, x, k);
            let p = parent_idx(gv, x, k);
            lemma_anc_unfold(gv, p, p);
            lemma_anc_unfold(gv, x, p);
            lemma_anc_trans(gv, p, x, s);
            lemma_target_reaches(tv, csv, psv, gv, eps, s, a, p);
            let jn = choose|jn: int|
                0 <= jn <= p && #[trigger] in_export(gv, eps, s, jn) && nia(gv, eps, p).contains(
                    gv[jn].id,
                ) && anc_set(tv, incl_pos(gv, eps, s, jn)).contains(pa);
            lemma_nia_parent_sub(gv, eps, x, k, gv[jn].id);
            lemma_nia_concat_mono(
                gv,
                eps,
                x,
                k + 1,
                gv[x].parents.len() as int,
                gv[jn].id,
            );
            lemma_dedup_ids(nia_concat(gv, eps, x, gv[x].parents.len() as int));
            assert(resolved_parents(gv, eps, x).contains(gv[jn].id));
            lemma_target_edge(tv, csv, psv, gv, eps, s, x, jn, pa);
            assert(in_export(gv, eps, s, x) && nia(gv, eps, x).contains(gv[x].id) && anc_set(
                tv,
                incl_pos(gv, eps, s, x),
            ).contains(pa));
        }
    } else {
        assert(a != x);
        lemma_anc_unfold(gv, x, a);
        let k = choose|k: int|
            0 <= k < gv[x].parents.len() && anc_set(gv, #[trigger] parent_idx(gv, x, k)).contains(
                a,
            );
        lemma_parent_idx_bounds(gv, x, k);
        let p = parent_idx(gv, x, k);
        lemma_anc_unfold(gv, p, p);
        lemma_anc_unfold(gv, x, p);
        lemma_anc_trans(gv, p, x, s);
        lemma_target_reaches(tv, csv, psv, gv, eps, s, a, p);
        let jn = choose|jn: int|
            0 <= jn <= p && #[trigger] in_export(gv, eps, s, jn) && nia(gv, eps, p).contains(
                gv[jn].id,
            ) && anc_set(tv, incl_pos(gv, eps, s, jn)).contains(pa);
        lemma_nia_parent_sub(gv, eps, x, k, gv[jn].id);
        lemma_nia_concat_mono(gv, eps, x, k + 1, gv[x].parents.len() as int, gv[jn].id);
        lemma_dedup_ids(nia_concat(gv, eps, x, gv[x].parents.len() as int));
        assert(nia(gv, eps, x).contains(gv[jn].id));
        assert(0 <= jn <= x && in_export(gv, eps, s, jn) && nia(gv, eps, x).contains(gv[jn].id)
            && anc_set(tv, incl_pos(gv, eps, s, jn)).contains(pa));
    }
}

/// Ancestry preservation: when included changeset `a` is an ancestor of
/// included changeset `b` in the source, the rewritten `a` is an ancestor of
/// the rewritten `b` in the target.
pub proof fn lemma_ancestry_preserved(
    tv: Seq<ChangesetView>,
    csv: Seq<ChangesetView>,
    psv: Seq<Seq<ChangesetId>>,
    gv: Seq<ChangesetView>,
    eps: Seq<Seq<Seq<u8>>>,
    s: int,
    a: int,
    b: int,
)
    requires
        graph_wf(gv),
        0 <= s < gv.len(),
        build_matches(csv, psv, gv, eps, s),
        rewrite_matches(tv, csv, psv, eps),
        fits_ids(csv.len() as int),
        in_export(gv, eps, s, a),
        in_export(gv, eps, s, b),
        anc_set(gv, b).contains(a),
    ensures
        anc_set(tv, incl_pos(gv, eps, s, b)).contains(incl_pos(gv, eps, s, a)),
{
    lemma_rewritten_graph_well_formed(tv, csv, psv, gv, eps, s);
    lemma_csv_index_of(csv, psv, gv, eps, s, a);
    lemma_csv_index_of(csv, psv, gv, eps, s, b);
    let pa = incl_pos(gv, eps, s, a);
    let pb = incl_pos(gv, eps, s, b);
    if a == b {
        lemma_anc_unfold(tv, pb, pb);
    } else {
        lemma_anc_unfold(gv, b, a);
        let k = choose|k: int|
            0 <= k < gv[b].parents.len() && anc_set(gv, #[trigger] parent_idx(gv, b, k)).contains(
                a,
            );
        lemma_parent_idx_bounds(gv, b, k);
        let p = parent_idx(gv, b, k);
        lemma_anc_unfold(gv, p, p);
        lemma_anc_unfold(gv, b, p);
        lemma_anc_trans(gv, p, b, s);
        lemma_target_reaches(tv, csv, psv, gv, eps, s, a, p);
        let jn = choose|jn: int|
            0 <= jn <= p && #[trigger] in_export(gv, eps, s, jn) && nia(gv, eps, p).contains(
                gv[jn].id,
            ) && anc_set(tv, incl_pos(gv, eps, s, jn)).contains(pa);
        lemma_nia_parent_sub(gv, eps, b, k, gv[jn].id);
        lemma_nia_concat_mono(gv, eps, b, k + 1, gv[b].parents.len() as int, gv[jn].id);
        lemma_dedup_ids(nia_concat(gv, eps, b, gv[b].parents.len() as int));
        assert(resolved_parents(gv, eps, b).contains(gv[jn].id));
        lemma_target_edge(tv, csv, psv, gv, eps, s, b, jn, pa);
    }
}

/// Determinism, and with it idempotence: two export runs over the same
/// graph, start and export paths produce equal targets (the reduced history
/// and every rewritten changeset, ids included, coincide).
pub proof fn lemma_export_idempotent(
    gv: Seq<ChangesetView>,
    eps: Seq<Seq<Seq<u8>>>,
    s: int,
    tv1: Seq<ChangesetView>,
    tv2: Seq<ChangesetView>,
)
    requires
        tv1 == target_changesets(gv, eps, s),
        tv2 == target_changesets(gv, eps, s),
    ensures
        tv1 == tv2,
{
}

/// Monotonicity of the filter: widening the export-path set keeps every
/// included changeset included, for a fixed graph and start.
pub proof fn lemma_export_monotone(
    gv: Seq<ChangesetView>,
    eps1: Seq<Seq<Seq<u8>>>,
    eps2: Seq<Seq<Seq<u8>>>,
    s: int,
    i: int,
)
    requires
        forall|q: int| 0 <= q < eps1.len() ==> eps2.contains(#[trigger] eps1[q]),
        in_export(gv, eps1, s, i),
    ensures
        in_export(gv, eps2, s, i),
{
    let cs = gv[i];
    let j = choose|j: int|
        0 <= j < cs.file_changes.len() && path_exported((#[trigger] cs.file_changes[j]).path, eps1);
    let q = choose|q: int| 0 <= q < eps1.len() && path_under(cs.file_changes[j].path, #[trigger] eps1[q]);
    let q2 = choose|q2: int| 0 <= q2 < eps2.len() && eps2[q2] == eps1[q];
    assert(path_under(cs.file_changes[j].path, eps2[q2]));
    assert(changeset_included(cs, eps2));
}

} // verus!
