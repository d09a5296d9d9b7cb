//! The source commit graph: an immutable DAG of changesets, listed parents
//! before children, with its well-formedness predicate and ancestry relation.

use vstd::prelude::*;

use crate::changeset::Changeset;
use crate::changeset::ChangesetId;
use crate::changeset::ChangesetView;

verus! {

/// A full commit history. Nodes are listed in topological order: every parent
/// of a node stands strictly before it. A graph that breaks this, or reuses an
/// id, is rejected with a traversal error before any export work starts.
pub struct CommitGraph {
    pub nodes: Vec<Changeset>,
}

impl View for CommitGraph {
    type V = Seq<ChangesetView>;

    open spec fn view(&self) -> Seq<ChangesetView> {
        self.nodes@.map(|i: int, c: Changeset| c@)
    }
}

/// No two nodes share an id.
pub open spec fn ids_unique(g: Seq<ChangesetView>) -> bool {
    forall|i: int, j: int|
        0 <= i < j < g.len() ==> (#[trigger] g[i]).id != (#[trigger] g[j]).id
}

/// Every parent reference resolves to a strictly earlier node.
pub open spec fn parents_resolve(g: Seq<ChangesetView>) -> bool {
    forall|i: int, k: int|
        0 <= i < g.len() && 0 <= k < g[i].parents.len() ==> 0 <= #[trigger] parent_idx(g, i, k)
            < i
}

/// A well-formed graph: unique ids, and parents resolve to earlier nodes
/// (so the node list is a topological order and the graph is acyclic).
pub open spec fn graph_wf(g: Seq<ChangesetView>) -> bool {
    ids_unique(g) && parents_resolve(g)
}

/// The index of the first node carrying `id`, or -1 when there is none.
pub open spec fn index_of_id(g: Seq<ChangesetView>, id: ChangesetId) -> int
    decreases g.len(),
{
    if g.len() == 0 {
        -1
    } else if g[0].id == id {
        0
    } else {
        let r = index_of_id(g.skip(1), id);
        if r < 0 {
            -1
        } else {
            r + 1
        }
    }
}

pub proof fn lemma_index_of_id(g: Seq<ChangesetView>, id: ChangesetId)
    ensures
        index_of_id(g, id) >= 0 ==> 0 <= index_of_id(g, id) < g.len() && g[index_of_id(g, id)].id
            == id && forall|j: int| 0 <= j < index_of_id(g, id) ==> (#[trigger] g[j]).id != id,
        index_of_id(g, id) < 0 ==> forall|j: int| 0 <= j < g.len() ==> (#[trigger] g[j]).id != id,
    decreases g.len(),
{
    if g.len() == 0 {
    } else if g[0].id == id {
    } else {
        let t = g.skip(1);
        lemma_index_of_id(t, id);
        let r = index_of_id(g, id);
        if r >= 0 {
            assert(t[r - 1] == g[r]);
            assert forall|j: int| 0 <= j < r implies (#[trigger] g[j]).id != id by {
                if j > 0 {
                    assert(t[j - 1] == g[j]);
                }
            }
        } else {
            assert forall|j: int| 0 <= j < g.len() implies (#[trigger] g[j]).id != id by {
                if j > 0 {
                    assert(t[j - 1] == g[j]);
                }
            }
        }
    }
}

/// The index carrying `id`, when `id` is known present at position `j`.
pub proof fn lemma_index_of_id_found(g: Seq<ChangesetView>, id: ChangesetId, j: int)
    requires
        0 <= j < g.len(),
        g[j].id == id,
        forall|m: int| 0 <= m < j ==> (#[trigger] g[m]).id != id,
    ensures
        index_of_id(g, id) == j,
{
    lemma_index_of_id(g, id);
}

/// The source index of parent `k` of node `i`.
pub open spec fn parent_idx(g: Seq<ChangesetView>, i: int, k: int) -> int {
    index_of_id(g, g[i].parents[k])
}

pub proof fn lemma_parent_idx_bounds(g: Seq<ChangesetView>, i: int, k: int)
    requires
        graph_wf(g),
        0 <= i < g.len(),
        0 <= k < g[i].parents.len(),
    ensures
        0 <= parent_idx(g, i, k) < i,
        g[parent_idx(g, i, k)].id == g[i].parents[k],
{
    lemma_index_of_id(g, g[i].parents[k]);
}

/// The ancestors of node `i`, itself included, as a set of indices.
pub open spec fn anc_set(g: Seq<ChangesetView>, i: int) -> Set<int>
    decreases i, g[i].parents.len() as int + 1,
        when 0 <= i < g.len() && graph_wf(g)
{
    anc_parents(g, i, g[i].parents.len() as int).insert(i)
}

/// The union of the ancestor sets of the first `k` parents of node `i`.
pub open spec fn anc_parents(g: Seq<ChangesetView>, i: int, k: int) -> Set<int>
    decreases i, k,
        when 0 <= i < g.len() && graph_wf(g) && 0 <= k <= g[i].parents.len()
{
    if k <= 0 {
        Set::empty()
    } else {
        proof {
            lemma_parent_idx_bounds(g, i, k - 1);
        }
        anc_parents(g, i, k - 1).union(anc_set(g, parent_idx(g, i, k - 1)))
    }
}

/// Membership in `anc_parents` is membership in some parent's ancestor set.
pub proof fn lemma_anc_parents_member(g: Seq<ChangesetView>, i: int, k: int, a: int)
    requires
        graph_wf(g),
        0 <= i < g.len(),
        0 <= k <= g[i].parents.len(),
    ensures
        anc_parents(g, i, k).contains(a) <==> exists|kk: int|
            0 <= kk < k && anc_set(g, parent_idx(g, i, kk)).contains(a),
    decreases k,
{
    if k <= 0 {
    } else {
        lemma_anc_parents_member(g, i, k - 1, a);
        lemma_parent_idx_bounds(g, i, k - 1);
        if anc_parents(g, i, k).contains(a) {
            if anc_set(g, parent_idx(g, i, k - 1)).contains(a) {
                assert(0 <= k - 1 < k && anc_set(g, parent_idx(g, i, k - 1)).contains(a));
            }
        }
        if exists|kk: int| 0 <= kk < k && anc_set(g, parent_idx(g, i, kk)).contains(a) {
            let kk = choose|kk: int| 0 <= kk < k && anc_set(g, parent_idx(g, i, kk)).contains(a);
            if kk < k - 1 {
                assert(anc_parents(g, i, k - 1).contains(a));
            }
        }
    }
}

/// A node is its own ancestor, and every other ancestor comes through a parent.
pub proof fn lemma_anc_unfold(g: Seq<ChangesetView>, i: int, a: int)
    requires
        graph_wf(g),
        0 <= i < g.len(),
    ensures
        anc_set(g, i).contains(a) <==> (a == i || exists|k: int|
            0 <= k < g[i].parents.len() && anc_set(g, #[trigger] parent_idx(g, i, k)).contains(a)),
{
    lemma_anc_parents_member(g, i, g[i].parents.len() as int, a);
}

/// Ancestor indices never exceed the node's own index.
pub proof fn lemma_anc_bound(g: Seq<ChangesetView>, i: int, a: int)
    requires
        graph_wf(g),
        0 <= i < g.len(),
        anc_set(g, i).contains(a),
    ensures
        0 <= a <= i,
    decreases i,
{
    lemma_anc_unfold(g, i, a);
    if a != i {
        let k = choose|k: int|
            0 <= k < g[i].parents.len() && anc_set(g, #[trigger] parent_idx(g, i, k)).contains(a);
        lemma_parent_idx_bounds(g, i, k);
        lemma_anc_bound(g, parent_idx(g, i, k), a);
    }
}

/// A strict ancestor is a parent of some node on the way down: there is a
/// node `c` between them whose parent it is.
pub proof fn lemma_anc_first_step(g: Seq<ChangesetView>, d: int, a: int)
    requires
        graph_wf(g),
        0 <= d < g.len(),
        anc_set(g, d).contains(a),
        a != d,
    ensures
        exists|c: int, k: int|
            0 <= c < g.len() && 0 <= k < g[c].parents.len() && #[trigger] parent_idx(g, c, k) == a
                && anc_set(g, d).contains(c),
    decreases d,
{
    lemma_anc_unfold(g, d, a);
    let k = choose|k: int|
        0 <= k < g[d].parents.len() && anc_set(g, #[trigger] parent_idx(g, d, k)).contains(a);
    lemma_parent_idx_bounds(g, d, k);
    let p = parent_idx(g, d, k);
    if a == p {
        lemma_anc_unfold(g, d, d);
        assert(0 <= d < g.len() && 0 <= k < g[d].parents.len() && parent_idx(g, d, k) == a
            && anc_set(g, d).contains(d));
    } else {
        lemma_anc_first_step(g, p, a);
        let (c, k2): (int, int) = choose|c: int, k2: int|
            0 <= c < g.len() && 0 <= k2 < g[c].parents.len() && #[trigger] parent_idx(g, c, k2)
                == a && anc_set(g, p).contains(c);
        lemma_anc_unfold(g, p, p);
        lemma_anc_unfold(g, d, p);
        lemma_anc_trans(g, c, p, d);
    }
}

/// Ancestry is transitive.
pub proof fn lemma_anc_trans(g: Seq<ChangesetView>, a: int, b: int, c: int)
    requires
        graph_wf(g),
        0 <= c < g.len(),
        anc_set(g, c).contains(b),
        0 <= b < g.len(),
        anc_set(g, b).contains(a),
    ensures
        anc_set(g, c).contains(a),
    decreases c,
{
    lemma_anc_unfold(g, c, b);
    if b == c {
    } else {
        let k = choose|k: int|
            0 <= k < g[c].parents.len() && anc_set(g, #[trigger] parent_idx(g, c, k)).contains(b);
        lemma_parent_idx_bounds(g, c, k);
        lemma_anc_trans(g, a, b, parent_idx(g, c, k));
        lemma_anc_unfold(g, c, a);
    }
}

impl CommitGraph {
    /// The number of changesets held.
    pub fn len(&self) -> (r: usize)
        ensures
            r == self@.len(),
    {
        self.nodes.len()
    }

    /// Looks a changeset up by id; `None` when the id is unknown.
    #[verifier::loop_isolation(false)]
    pub fn find_index(&self, id: ChangesetId) -> (r: Option<usize>)
        ensures
            r matches Some(j) ==> 0 <= j < self@.len() && index_of_id(self@, id) == j as int,
            r is None ==> index_of_id(self@, id) < 0,
    {
        let g = &self.nodes;
        proof {
            assert(forall|m: int| 0 <= m < self@.len() ==> (#[trigger] self@[m]) == g@[m]@);
        }
        let mut i: usize = 0;
        while i < g.len()
            invariant
                i <= g@.len(),
                forall|j: int| 0 <= j < i ==> (#[trigger] self@[j]).id != id,
            decreases g@.len() - i,
        {
            if g[i].id.value == id.value {
                proof {
                    assert(self@[i as int].id == id);
                    lemma_index_of_id_found(self@, id, i as int);
                }
                return Some(i);
            }
            i = i + 1;
        }
        proof {
            lemma_index_of_id(self@, id);
            if index_of_id(self@, id) >= 0 {
                assert(self@[index_of_id(self@, id)].id == id);
                assert(false);
            }
        }
        None
    }

    /// Checks the whole graph for consistency: returns `None` when every id is
    /// unique and every parent resolves to an earlier node, and otherwise an
    /// offending id.
    #[verifier::loop_isolation(false)]
    pub fn check(&self) -> (r: Option<ChangesetId>)
        ensures
            r is None <==> graph_wf(self@),
    {
        let g = &self.nodes;
        let ghost gv = self@;
        proof {
            assert(forall|m: int| 0 <= m < gv.len() ==> (#[trigger] gv[m]) == g@[m]@);
        }
        let mut i: usize = 0;
        while i < g.len()
            invariant
                i <= gv.len(),
                forall|a: int, b: int|
                    0 <= a < b < i ==> (#[trigger] gv[a]).id != (#[trigger] gv[b]).id,
                forall|a: int, k: int|
                    0 <= a < i && 0 <= k < gv[a].parents.len() ==> 0 <= #[trigger] parent_idx(
                        gv, a, k) < a,
            decreases gv.len() - i,
        {
            // unique against all earlier ids
            let mut j: usize = 0;
            while j < i
                invariant
                    j <= i,
                    i < gv.len(),
                    forall|b: int| 0 <= b < j ==> (#[trigger] gv[b]).id != gv[i as int].id,
                decreases i - j,
            {
                if g[j].id.value == g[i].id.value {
                    proof {
                        assert(gv[j as int].id == gv[i as int].id);
                        assert(!ids_unique(gv));
                    }
                    return Some(g[i].id);
                }
                j = j + 1;
            }
            // every parent resolves to an earlier node
            let mut k: usize = 0;
            while k < g[i].parents.len()
                invariant
                    i < gv.len(),
                    k <= gv[i as int].parents.len(),
                    forall|kk: int|
                        0 <= kk < k ==> 0 <= #[trigger] parent_idx(gv, i as int, kk) < i,
                decreases gv[i as int].parents.len() - k,
            {
                let pid = g[i].parents[k];
                proof {
                    assert(pid == gv[i as int].parents[k as int]);
                }
                let mut j: usize = 0;
                let mut found: bool = false;
                while j < i
                    invariant
                        j <= i,
                        found ==> 0 <= parent_idx(gv, i as int, k as int) < i,
                        !found ==> forall|m: int| 0 <= m < j ==> (#[trigger] gv[m]).id != pid,
                    decreases i - j,
                {
                    if !found && g[j].id.value == pid.value {
                        proof {
                            assert(gv[j as int].id == pid);
                            lemma_index_of_id_found(gv, pid, j as int);
                        }
                        found = true;
                    }
                    j = j + 1;
                }
                if !found {
                    proof {
                        lemma_index_of_id(gv, pid);
                        let r = parent_idx(gv, i as int, k as int);
                        if 0 <= r < i {
                            assert(gv[r].id == pid);
                            assert(false);
                        }
                        assert(!parents_resolve(gv));
                    }
                    return Some(pid);
                }
                k = k + 1;
            }
            proof {
                assert forall|a: int, k2: int|
                    0 <= a < i + 1 && 0 <= k2 < gv[a].parents.len() implies 0 <= #[trigger]
                        parent_idx(gv, a, k2) < a by {
                    if a == i as int {
                        assert(0 <= parent_idx(gv, i as int, k2) < i);
                    }
                }
            }
            i = i + 1;
        }
        proof {
            assert(ids_unique(gv));
            assert(parents_resolve(gv));
        }
        None
    }
}

} // verus!
