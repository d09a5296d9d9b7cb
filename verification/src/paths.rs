//! Structured repository paths: a path is a sequence of non-empty segments,
//! parsed from filesystem-style byte strings such as `/lib/parser`.

use vstd::prelude::*;

use crate::errors::ExportError;

verus! {

/// The byte that separates segments in a filesystem-style path.
pub const SLASH: u8 = 47;

/// A hierarchical path inside a repository, as a sequence of segments.
/// Used both for the paths of changed files and for export-path prefixes.
pub struct RepoPath {
    pub segments: Vec<Vec<u8>>,
}

impl View for RepoPath {
    type V = Seq<Seq<u8>>;

    open spec fn view(&self) -> Seq<Seq<u8>> {
        self.segments@.map(|i: int, s: Vec<u8>| s@)
    }
}

/// A well-formed segment is non-empty and holds no separator byte.
pub open spec fn seg_wf(s: Seq<u8>) -> bool {
    s.len() > 0 && forall|i: int| 0 <= i < s.len() ==> s[i] != SLASH
}

/// A well-formed path: every segment is well-formed.
pub open spec fn path_wf(p: Seq<Seq<u8>>) -> bool {
    forall|i: int| 0 <= i < p.len() ==> seg_wf(#[trigger] p[i])
}

/// The bytes of a path written back in filesystem style, without a leading
/// separator: segments interleaved with single separator bytes.
pub open spec fn joined(p: Seq<Seq<u8>>) -> Seq<u8>
    decreases p.len(),
{
    if p.len() == 0 {
        Seq::empty()
    } else if p.len() == 1 {
        p[0]
    } else {
        joined(p.drop_last()) + seq![SLASH] + p.last()
    }
}

/// The byte strings that parse into a path: non-empty, no leading or trailing
/// separator, no two adjacent separators. (A single leading separator is
/// stripped before this predicate applies.)
pub open spec fn valid_path_bytes(s: Seq<u8>) -> bool {
    &&& s.len() > 0
    &&& s[0] != SLASH
    &&& s[s.len() - 1] != SLASH
    &&& forall|i: int| 0 < i < s.len() ==> !(s[i - 1] == SLASH && #[trigger] s[i] == SLASH)
}

/// The input bytes with one leading separator stripped, if present.
pub open spec fn stripped(raw: Seq<u8>) -> Seq<u8> {
    if raw.len() > 0 && raw[0] == SLASH {
        raw.skip(1)
    } else {
        raw
    }
}

/// `prefix` is a segment-wise prefix of `p` (so `/lib` covers `/lib/scan`
/// but not `/library`).
pub open spec fn path_under(p: Seq<Seq<u8>>, prefix: Seq<Seq<u8>>) -> bool {
    prefix.len() <= p.len() && p.take(prefix.len() as int) == prefix
}

/// The views of a sequence of paths.
pub open spec fn paths_view(eps: Seq<RepoPath>) -> Seq<Seq<Seq<u8>>> {
    eps.map(|i: int, p: RepoPath| p@)
}

/// A usable export-path set: every path has at least one segment, and no two
/// paths are nested inside one another (equal paths count as nested).
pub open spec fn export_paths_wf(eps: Seq<Seq<Seq<u8>>>) -> bool {
    &&& forall|i: int| 0 <= i < eps.len() ==> (#[trigger] eps[i]).len() > 0
    &&& forall|i: int, j: int|
        0 <= i < eps.len() && 0 <= j < eps.len() && i != j ==> !path_under(
            #[trigger] eps[j],
            #[trigger] eps[i],
        )
}

/// Checks an export-path set: rejects an empty path and a pair of nested
/// paths, reporting the offending (inner) path.
#[verifier::loop_isolation(false)]
pub fn validate_export_paths(export_paths: &Vec<RepoPath>) -> (r: Option<ExportError>)
    ensures
        r is None <==> export_paths_wf(paths_view(export_paths@)),
        r matches Some(e) ==> (e matches ExportError::InvalidPath { raw } && exists|i: int|
            #![trigger paths_view(export_paths@)[i]]
            0 <= i < export_paths@.len() && raw@ == joined(paths_view(export_paths@)[i]) && (
            paths_view(export_paths@)[i].len() == 0 || exists|j: int|
                0 <= j < export_paths@.len() && j != i && path_under(
                    paths_view(export_paths@)[i],
                    paths_view(export_paths@)[j],
                ))),
{
    let ghost epsv = paths_view(export_paths@);
    proof {
        assert(forall|m: int|
            0 <= m < epsv.len() ==> (#[trigger] epsv[m]) == export_paths@[m]@);
    }
    let n = export_paths.len();
    let mut i: usize = 0;
    while i < n
        invariant
            i <= n,
            forall|m: int| 0 <= m < i ==> (#[trigger] epsv[m]).len() > 0,
            forall|a: int, b: int|
                0 <= a < n && 0 <= b < i && a != b ==> !path_under(
                    #[trigger] epsv[b],
                    #[trigger] epsv[a],
                ),
        decreases n - i,
    {
        if export_paths[i].segments.len() == 0 {
            proof {
                assert(epsv[i as int].len() == 0);
            }
            return Some(ExportError::InvalidPath { raw: export_paths[i].to_bytes() });
        }
        let mut j: usize = 0;
        while j < n
            invariant
                j <= n,
                i < n,
                forall|a: int|
                    0 <= a < j && a != i ==> !path_under(epsv[i as int], #[trigger] epsv[a]),
            decreases n - j,
        {
            if j != i {
                if export_paths[i].starts_with(&export_paths[j]) {
                    // `export_paths[j]` covers `export_paths[i]`: the set is
                    // ambiguous; report the inner (longer) path.
                    proof {
                        assert(path_under(epsv[i as int], epsv[j as int]));
                    }
                    return Some(ExportError::InvalidPath { raw: export_paths[i].to_bytes() });
                }
            }
            j = j + 1;
        }
        i = i + 1;
    }
    None
}

proof fn lemma_joined_push(p: Seq<Seq<u8>>, s: Seq<u8>)
    ensures
        p.len() == 0 ==> joined(p.push(s)) == s,
        p.len() > 0 ==> joined(p.push(s)) == joined(p) + seq![SLASH] + s,
{
    let q = p.push(s);
    assert(q.drop_last() =~= p);
    assert(q.last() == s);
    if p.len() == 0 {
        assert(joined(q) == q[0]);
    }
}

/// A copy of a byte string.
pub fn copy_bytes(v: &[u8]) -> (r: Vec<u8>)
    ensures
        r@ == v@,
{
    let mut r: Vec<u8> = Vec::new();
    let mut i: usize = 0;
    while i < v.len()
        invariant
            i <= v@.len(),
            r@ == v@.take(i as int),
        decreases v@.len() - i,
    {
        r.push(v[i]);
        proof {
            assert(r@ =~= v@.take(i as int + 1));
        }
        i = i + 1;
    }
    proof {
        assert(r@ =~= v@);
    }
    r
}

/// `true` iff the two byte strings are equal.
pub fn bytes_eq(a: &Vec<u8>, b: &Vec<u8>) -> (r: bool)
    ensures
        r == (a@ == b@),
{
    if a.len() != b.len() {
        proof {
            assert(a@ != b@);
        }
        return false;
    }
    let mut i: usize = 0;
    while i < a.len()
        invariant
            i <= a@.len(),
            a@.len() == b@.len(),
            forall|j: int| 0 <= j < i ==> a@[j] == b@[j],
        decreases a@.len() - i,
    {
        if a[i] != b[i] {
            proof {
                assert(a@ != b@);
            }
            return false;
        }
        i = i + 1;
    }
    proof {
        assert(a@ =~= b@);
    }
    true
}

impl RepoPath {
    /// A deep copy with the same segments.
    pub fn duplicate(&self) -> (r: RepoPath)
        ensures
            r@ == self@,
    {
        let mut segs: Vec<Vec<u8>> = Vec::new();
        let mut i: usize = 0;
        while i < self.segments.len()
            invariant
                i <= self.segments@.len(),
                segs@.len() == i,
                forall|j: int| 0 <= j < i ==> segs@[j]@ == self.segments@[j]@,
            decreases self.segments@.len() - i,
        {
            segs.push(copy_bytes(self.segments[i].as_slice()));
            i = i + 1;
        }
        let r = RepoPath { segments: segs };
        proof {
            assert(r@ =~= self@);
        }
        r
    }

    /// Parses a filesystem-style byte string into a structured path.
    /// One leading separator is accepted and stripped; an empty string, a
    /// trailing separator or an empty segment is rejected as an invalid path.
    pub fn parse(raw: &Vec<u8>) -> (r: Result<RepoPath, ExportError>)
        ensures
            r matches Ok(p) ==> valid_path_bytes(stripped(raw@)) && path_wf(p@) && joined(p@)
                == stripped(raw@),
            r matches Err(e) ==> !valid_path_bytes(stripped(raw@)) && (e matches
                ExportError::InvalidPath { raw: b } && b@ == raw@),
    {
        let ghost s = stripped(raw@);
        let start: usize = if raw.len() > 0 && raw[0] == SLASH {
            1
        } else {
            0
        };
        proof {
            assert(s =~= raw@.skip(start as int));
        }
        let mut segs: Vec<Vec<u8>> = Vec::new();
        let mut cur: Vec<u8> = Vec::new();
        let mut i: usize = start;
        while i < raw.len()
            invariant
                start <= i <= raw@.len(),
                start == 0 || start == 1,
                s == raw@.skip(start as int),
                s == stripped(raw@),
                path_wf(segs@.map(|k: int, v: Vec<u8>| v@)),
                seg_wf(cur@) || cur@.len() == 0,
                cur@.len() == 0 <==> (i == start || s[i - start - 1] == SLASH),
                i > start ==> s[0] != SLASH,
                forall|j: int| 0 < j < i - start ==> !(s[j - 1] == SLASH && #[trigger] s[j]
                    == SLASH),
                segs@.len() == 0 ==> s.take(i - start) == cur@,
                segs@.len() > 0 ==> s.take(i - start) == joined(
                    segs@.map(|k: int, v: Vec<u8>| v@),
                ) + seq![SLASH] + cur@,
            decreases raw@.len() - i,
        {
            let b = raw[i];
            proof {
                assert(s[i - start] == raw@[i as int]);
            }
            if b == SLASH {
                if cur.len() == 0 {
                    // Leading separator after stripping, or two adjacent
                    // separators: the path is malformed.
                    proof {
                        assert(!valid_path_bytes(s));
                    }
                    return Err(ExportError::InvalidPath { raw: copy_bytes(raw.as_slice()) });
                }
                proof {
                    let sv = segs@.map(|k: int, v: Vec<u8>| v@);
                    lemma_joined_push(sv, cur@);
                    assert(segs@.push(cur).map(|k: int, v: Vec<u8>| v@) =~= sv.push(cur@));
                    assert(s.take(i - start + 1) =~= s.take(i - start) + seq![SLASH]);
                }
                segs.push(cur);
                cur = Vec::new();
            } else {
                proof {
                    assert(s.take(i - start + 1) =~= s.take(i - start).push(raw@[i as int]));
                }
                cur.push(b);
            }
            i = i + 1;
        }
        proof {
            assert(s.take(i - start) =~= s);
        }
        if cur.len() == 0 {
            // Empty input or trailing separator.
            proof {
                assert(!valid_path_bytes(s));
            }
            return Err(ExportError::InvalidPath { raw: copy_bytes(raw.as_slice()) });
        }
        proof {
            let sv = segs@.map(|k: int, v: Vec<u8>| v@);
            lemma_joined_push(sv, cur@);
            assert(segs@.push(cur).map(|k: int, v: Vec<u8>| v@) =~= sv.push(cur@));
            if segs@.len() == 0 {
                assert(s[0] != SLASH);
            }
            assert(s[s.len() - 1] != SLASH);
        }
        segs.push(cur);
        let p = RepoPath { segments: segs };
        Ok(p)
    }

    /// The path written back in filesystem style, without a leading separator.
    pub fn to_bytes(&self) -> (r: Vec<u8>)
        ensures
            r@ == joined(self@),
    {
        let mut r: Vec<u8> = Vec::new();
        let mut i: usize = 0;
        while i < self.segments.len()
            invariant
                i <= self.segments@.len(),
                r@ == joined(self@.take(i as int)),
            decreases self.segments@.len() - i,
        {
            if i > 0 {
                r.push(SLASH);
            }
            let mut j: usize = 0;
            let ghost r0 = r@;
            while j < self.segments[i].len()
                invariant
                    j <= self.segments@[i as int]@.len(),
                    i < self.segments@.len(),
                    r@ == r0 + self.segments@[i as int]@.take(j as int),
                decreases self.segments@[i as int]@.len() - j,
            {
                let b = self.segments[i][j];
                r.push(b);
                proof {
                    assert(r@ =~= r0 + self.segments@[i as int]@.take(j as int + 1));
                }
                j = j + 1;
            }
            proof {
                let pv = self@;
                assert(pv.take(i as int + 1).drop_last() =~= pv.take(i as int));
                assert(pv.take(i as int + 1).last() == pv[i as int]);
                assert(self.segments@[i as int]@.take(self.segments@[i as int]@.len() as int)
                    =~= pv[i as int]);
                if i == 0 {
                    assert(r@ =~= pv[0]);
                    assert(joined(pv.take(1)) == pv.take(1)[0]);
                } else {
                    assert(r@ =~= joined(pv.take(i as int)) + seq![SLASH] + pv[i as int]);
                }
            }
            i = i + 1;
        }
        proof {
            assert(self@.take(self.segments@.len() as int) =~= self@);
        }
        r
    }

    /// `true` iff `prefix` covers `self`: every segment of `prefix` matches
    /// the corresponding leading segment of `self`.
    pub fn starts_with(&self, prefix: &RepoPath) -> (r: bool)
        ensures
            r == path_under(self@, prefix@),
    {
        if prefix.segments.len() > self.segments.len() {
            return false;
        }
        let mut i: usize = 0;
        while i < prefix.segments.len()
            invariant
                i <= prefix.segments@.len(),
                prefix.segments@.len() <= self.segments@.len(),
                forall|j: int| 0 <= j < i ==> self@[j] == prefix@[j],
            decreases prefix.segments@.len() - i,
        {
            if !bytes_eq(&self.segments[i], &prefix.segments[i]) {
                proof {
                    assert(self@[i as int] != prefix@[i as int]);
                    assert(self@.take(prefix@.len() as int)[i as int] != prefix@[i as int]);
                }
                return false;
            }
            i = i + 1;
        }
        proof {
            assert(self@.take(prefix@.len() as int) =~= prefix@);
        }
        true
    }
}

} // verus!
