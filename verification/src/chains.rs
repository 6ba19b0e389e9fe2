//! Linking of surface-surface intersection points into chains.
//!
//! Intersection points are produced by scanning iso-parametric lines of both
//! surfaces. Each point is linked greedily to its nearest eligible successor,
//! and the links are then walked to obtain ordered chains of points, each of
//! which becomes one intersection polyline.

use vstd::prelude::*;

verus! {

/// Which iso-parametric line produced an intersection point.
#[derive(Clone, Copy, Debug, PartialEq, Eq, Structural)]
pub enum GridSource {
    /// Fixed u on surface0, with the index of the iso-line.
    FixedU0(usize),
    /// Fixed v on surface0, with the index of the iso-line.
    FixedV0(usize),
    /// Fixed u on surface1, with the index of the iso-line.
    FixedU1(usize),
    /// Fixed v on surface1, with the index of the iso-line.
    FixedV1(usize),
}

/// The part of an intersection point that the linking reads and writes:
/// the iso-line that produced it and its links to neighbouring points.
#[derive(Clone, Copy, Debug)]
pub struct LinkedIntersectionPoint {
    /// Which iso-line generated this point.
    pub grid_source: GridSource,
    /// Index of the next point in the chain.
    pub next: Option<usize>,
    /// Index of the previous point in the chain.
    pub prev: Option<usize>,
}

impl LinkedIntersectionPoint {
    /// A point produced by the given iso-line, not yet linked.
    pub fn new(grid_source: GridSource) -> (p: Self)
        ensures
            p.grid_source == grid_source,
            p.next is None,
            p.prev is None,
    {
        LinkedIntersectionPoint { grid_source, next: None, prev: None }
    }
}

/// The rows of a matrix, each taken by its view.
pub open spec fn matrix_view<T>(m: Seq<Vec<T>>) -> Seq<Seq<T>> {
    m.map_values(|r: Vec<T>| r@)
}

/// `cand` is a square matrix with one row and one column per point.
pub open spec fn is_square(cand: Seq<Seq<Option<u64>>>, n: int) -> bool {
    &&& cand.len() == n
    &&& forall|i: int| 0 <= i < n ==> #[trigger] cand[i].len() == n
}

/// Point `j` may become the successor of point `i`: it is another point, it
/// has no predecessor yet, it comes from another iso-line, and it is near
/// enough to `i` to have a distance key.
pub open spec fn eligible(
    s: Seq<LinkedIntersectionPoint>,
    cand: Seq<Seq<Option<u64>>>,
    i: int,
    j: int,
) -> bool {
    &&& j != i
    &&& s[j].prev is None
    &&& s[i].grid_source != s[j].grid_source
    &&& cand[i][j] is Some
}

/// Among the points `0..k`, the first eligible successor of `i` with the
/// smallest distance key.
pub open spec fn best_below(
    s: Seq<LinkedIntersectionPoint>,
    cand: Seq<Seq<Option<u64>>>,
    i: int,
    k: int,
) -> Option<int>
    decreases k,
{
    if k <= 0 {
        None
    } else {
        let b = best_below(s, cand, i, k - 1);
        let j = k - 1;
        if eligible(s, cand, i, j) && (b is None || cand[i][j]->0 < cand[i][b->0]->0) {
            Some(j)
        } else {
            b
        }
    }
}

/// Links point `i` to its best successor, unless it already has one.
pub open spec fn link_step(
    s: Seq<LinkedIntersectionPoint>,
    cand: Seq<Seq<Option<u64>>>,
    i: int,
) -> Seq<LinkedIntersectionPoint> {
    if s[i].next is Some {
        s
    } else {
        match best_below(s, cand, i, s.len() as int) {
            None => s,
            Some(j) => {
                let s1 = s.update(i, LinkedIntersectionPoint { next: Some(j as usize), ..s[i] });
                s1.update(j, LinkedIntersectionPoint { prev: Some(i as usize), ..s1[j] })
            },
        }
    }
}

/// The points after the points `0..k` have been linked in turn.
pub open spec fn linked(
    s: Seq<LinkedIntersectionPoint>,
    cand: Seq<Seq<Option<u64>>>,
    k: int,
) -> Seq<LinkedIntersectionPoint>
    decreases k,
{
    if k <= 0 {
        s
    } else {
        link_step(linked(s, cand, k - 1), cand, k - 1)
    }
}

proof fn lemma_best_below_eligible(
    s: Seq<LinkedIntersectionPoint>,
    cand: Seq<Seq<Option<u64>>>,
    i: int,
    k: int,
)
    ensures
        best_below(s, cand, i, k) matches Some(j) ==> 0 <= j < k && eligible(s, cand, i, j),
    decreases k,
{
    if k > 0 {
        lemma_best_below_eligible(s, cand, i, k - 1);
    }
}

/// Successor and predecessor links agree: `i` has successor `j` exactly when
/// `j` has predecessor `i`, links stay inside the point set, no point follows
/// itself, and linked points come from different iso-lines.
pub open spec fn links_consistent(s: Seq<LinkedIntersectionPoint>) -> bool {
    &&& forall|i: int|
        0 <= i < s.len() && (#[trigger] s[i]).next is Some ==> {
            let j = s[i].next->0 as int;
            &&& 0 <= j < s.len()
            &&& j != i
            &&& s[j].prev == Some(i as usize)
            &&& s[i].grid_source != s[j].grid_source
        }
    &&& forall|j: int|
        0 <= j < s.len() && (#[trigger] s[j]).prev is Some ==> {
            let i = s[j].prev->0 as int;
            &&& 0 <= i < s.len()
            &&& s[i].next == Some(j as usize)
        }
}

/// No point has a successor or a predecessor yet.
pub open spec fn unlinked(s: Seq<LinkedIntersectionPoint>) -> bool {
    forall|i: int| 0 <= i < s.len() ==> (#[trigger] s[i]).next is None && s[i].prev is None
}

/// Fresh points, with no links, have consistent links.
pub proof fn lemma_unlinked_is_consistent(s: Seq<LinkedIntersectionPoint>)
    requires
        unlinked(s),
    ensures
        links_consistent(s),
{
}

proof fn lemma_link_step_keeps_consistent(
    s: Seq<LinkedIntersectionPoint>,
    cand: Seq<Seq<Option<u64>>>,
    i: int,
)
    requires
        is_square(cand, s.len() as int),
        s.len() <= usize::MAX,
        0 <= i < s.len(),
        links_consistent(s),
    ensures
        link_step(s, cand, i).len() == s.len(),
        links_consistent(link_step(s, cand, i)),
        forall|k: int|
            0 <= k < s.len() ==> (#[trigger] link_step(s, cand, i)[k]).grid_source
                == s[k].grid_source,
        forall|k: int|
            0 <= k < s.len() && s[k].next is Some ==> (#[trigger] link_step(s, cand, i)[k]).next
                == s[k].next,
{
    lemma_best_below_eligible(s, cand, i, s.len() as int);
    let r = link_step(s, cand, i);
    if s[i].next is None {
        match best_below(s, cand, i, s.len() as int) {
            None => {},
            Some(j) => {
                assert forall|a: int|
                    0 <= a < r.len() && (#[trigger] r[a]).next is Some implies {
                    let b = r[a].next->0 as int;
                    &&& 0 <= b < r.len()
                    &&& b != a
                    &&& r[b].prev == Some(a as usize)
                    &&& r[a].grid_source != r[b].grid_source
                } by {
                    if a != i {
                        let b = s[a].next->0 as int;
                        assert(s[a].next is Some);
                        assert(s[b].prev == Some(a as usize));
                        if b == j {
                            assert(false);
                        }
                    }
                }
                assert forall|b: int|
                    0 <= b < r.len() && (#[trigger] r[b]).prev is Some implies {
                    let a = r[b].prev->0 as int;
                    &&& 0 <= a < r.len()
                    &&& r[a].next == Some(b as usize)
                } by {
                    if b != j {
                        assert(s[b].prev is Some);
                        let a = s[b].prev->0 as int;
                        assert(s[a].next == Some(b as usize));
                        if a == i {
                            assert(false);
                        }
                    }
                }
            },
        }
    }
}

/// Linking keeps links consistent: started from consistent links (fresh
/// points in particular), successor and predecessor links still agree
/// afterwards, linked points still come from different iso-lines, every point
/// keeps its iso-line, and a point that already had a successor keeps it.
pub proof fn lemma_linking_keeps_links_consistent(
    s: Seq<LinkedIntersectionPoint>,
    cand: Seq<Seq<Option<u64>>>,
    k: int,
)
    requires
        is_square(cand, s.len() as int),
        s.len() <= usize::MAX,
        links_consistent(s),
        0 <= k <= s.len(),
    ensures
        linked(s, cand, k).len() == s.len(),
        links_consistent(linked(s, cand, k)),
        forall|p: int|
            0 <= p < s.len() ==> (#[trigger] linked(s, cand, k)[p]).grid_source
                == s[p].grid_source,
        forall|p: int|
            0 <= p < s.len() && s[p].next is Some ==> (#[trigger] linked(s, cand, k)[p]).next
                == s[p].next,
    decreases k,
{
    if k > 0 {
        lemma_linking_keeps_links_consistent(s, cand, k - 1);
        let prev = linked(s, cand, k - 1);
        lemma_link_step_keeps_consistent(prev, cand, k - 1);
        assert forall|p: int| 0 <= p < s.len() && s[p].next is Some implies
            (#[trigger] linked(s, cand, k)[p]).next == s[p].next by {
            assert(prev[p].next == s[p].next);
        }
        assert forall|p: int| 0 <= p < s.len() implies
            (#[trigger] linked(s, cand, k)[p]).grid_source == s[p].grid_source by {
            assert(prev[p].grid_source == s[p].grid_source);
        }
    }
}

/// Links each point that has no successor yet to the nearest point that may
/// follow it.
///
/// `cand[i][j]` is `Some(key)` exactly when the distance between points `i`
/// and `j` is below the linking threshold, and then the keys order the
/// distances of one row as the distances themselves are ordered. Points are
/// handled in index order; for each, the eligible point with the smallest key
/// wins, the first one among equal keys.
pub fn link_points(pts: &mut Vec<LinkedIntersectionPoint>, cand: &Vec<Vec<Option<u64>>>)
    requires
        is_square(matrix_view(cand@), old(pts)@.len() as int),
    ensures
        final(pts)@ == linked(old(pts)@, matrix_view(cand@), old(pts)@.len() as int),
        final(pts)@.len() == old(pts)@.len(),
        forall|p: int|
            0 <= p < old(pts)@.len() ==> (#[trigger] final(pts)@[p]).grid_source
                == old(pts)@[p].grid_source,
        links_consistent(old(pts)@) ==> links_consistent(final(pts)@),
        keeps_old_links(old(pts)@, final(pts)@),
        new_links_nearest(old(pts)@, matrix_view(cand@), final(pts)@, old(pts)@.len() as int),
        no_link_missed(old(pts)@, matrix_view(cand@), final(pts)@, old(pts)@.len() as int),
        new_links_paired(old(pts)@, final(pts)@, old(pts)@.len() as int),
{
    let n: usize = pts.len();
    let ghost c = matrix_view(cand@);
    let ghost s0 = pts@;
    let mut i: usize = 0;
    while i < n
        invariant
            n == pts@.len(),
            n == s0.len(),
            0 <= i <= n,
            c == matrix_view(cand@),
            is_square(c, n as int),
            pts@ == linked(s0, c, i as int),
        decreases n - i,
    {
        let ghost si = pts@;
        if pts[i].next.is_none() {
            let mut best: Option<usize> = None;
            let mut best_key: u64 = 0;
            let mut j: usize = 0;
            while j < n
                invariant
                    n == pts@.len(),
                    0 <= i < n,
                    0 <= j <= n,
                    pts@ == si,
                    c == matrix_view(cand@),
                    is_square(c, n as int),
                    best matches Some(b) ==> b < n && c[i as int][b as int] == Some(best_key),
                    best_below(si, c, i as int, j as int) == (match best {
                        Some(b) => Some(b as int),
                        None => None,
                    }),
                decreases n - j,
            {
                assert(c[i as int] == cand@[i as int]@);
                assert(c[i as int][j as int] == cand[i as int]@[j as int]);
                if j != i && pts[j].prev.is_none() && pts[i].grid_source != pts[j].grid_source {
                    match cand[i][j] {
                        Some(key) => {
                            if best.is_none() || key < best_key {
                                best = Some(j);
                                best_key = key;
                            }
                        },
                        None => {},
                    }
                }
                j = j + 1;
            }
            match best {
                Some(b) => {
                    proof {
                        lemma_best_below_eligible(si, c, i as int, n as int);
                    }
                    let mut pi = pts[i];
                    pi.next = Some(b);
                    pts.set(i, pi);
                    let mut pb = pts[b];
                    pb.prev = Some(i);
                    pts.set(b, pb);
                },
                None => {},
            }
        }
        i = i + 1;
    }
    proof {
        lemma_linked_monotone_len(s0, c, n as int);
        lemma_linked_monotone(s0, c, 0, n as int);
        if links_consistent(s0) {
            lemma_linking_keeps_links_consistent(s0, c, n as int);
        }
        lemma_linking_picks_nearest_free_point(s0, c);
    }
}

/// Every successor link points inside the point set.
pub open spec fn next_in_range(s: Seq<LinkedIntersectionPoint>) -> bool {
    forall|i: int|
        0 <= i < s.len() && (#[trigger] s[i]).next is Some ==> (s[i].next->0 as int) < s.len()
}

/// Number of points not yet visited.
pub open spec fn count_unvisited(vis: Seq<bool>) -> nat
    decreases vis.len(),
{
    if vis.len() == 0 {
        0
    } else {
        count_unvisited(vis.drop_last()) + if vis.last() {
            0nat
        } else {
            1nat
        }
    }
}

/// Marking an unvisited point leaves one point fewer unvisited.
pub proof fn lemma_count_unvisited_mark(vis: Seq<bool>, k: int)
    requires
        0 <= k < vis.len(),
        !vis[k],
    ensures
        count_unvisited(vis.update(k, true)) + 1 == count_unvisited(vis),
    decreases vis.len(),
{
    let u = vis.update(k, true);
    if k == vis.len() - 1 {
        assert(u.drop_last() =~= vis.drop_last());
    } else {
        assert(u.drop_last() =~= vis.drop_last().update(k, true));
        lemma_count_unvisited_mark(vis.drop_last(), k);
    }
}

/// Follows successor links from `cur`, appending each newly reached point to
/// `chain` and marking it visited, until a point has no successor or its
/// successor was already visited.
pub open spec fn walk(
    s: Seq<LinkedIntersectionPoint>,
    vis: Seq<bool>,
    cur: int,
    chain: Seq<usize>,
) -> (Seq<bool>, Seq<usize>)
    decreases count_unvisited(vis),
{
    match s[cur].next {
        None => (vis, chain),
        Some(nxt) => {
            if nxt >= vis.len() || vis[nxt as int] {
                (vis, chain)
            } else {
                proof {
                    lemma_count_unvisited_mark(vis, nxt as int);
                }
                walk(s, vis.update(nxt as int, true), nxt as int, chain.push(nxt))
            }
        },
    }
}

/// One scan over the start points `0..k`: every point that is not yet visited
/// (and, when `only_heads` holds, has no predecessor) starts a walk; the
/// chains of at least two points are kept.
pub open spec fn pass(
    s: Seq<LinkedIntersectionPoint>,
    only_heads: bool,
    vis: Seq<bool>,
    chains: Seq<Seq<usize>>,
    k: int,
) -> (Seq<bool>, Seq<Seq<usize>>)
    decreases k,
{
    if k <= 0 {
        (vis, chains)
    } else {
        let (v, c) = pass(s, only_heads, vis, chains, k - 1);
        let st = k - 1;
        if v[st] || (only_heads && s[st].prev is Some) {
            (v, c)
        } else {
            let (v2, ch) = walk(s, v.update(st, true), st, seq![st as usize]);
            (
                v2,
                if ch.len() >= 2 {
                    c.push(ch)
                } else {
                    c
                },
            )
        }
    }
}

/// The chains of the points: first those that start at a point without
/// predecessor, then those found among the points still unvisited (closed
/// loops), each in the order of its starting point.
pub open spec fn spec_chains(s: Seq<LinkedIntersectionPoint>) -> Seq<Seq<usize>> {
    let n = s.len() as int;
    let first = pass(s, true, Seq::new(s.len(), |i: int| false), Seq::empty(), n);
    pass(s, false, first.0, first.1, n).1
}

/// Each point of `c` is a point of `s`, and each point of `c` but the last
/// has the next one as its successor.
pub open spec fn follows_links(s: Seq<LinkedIntersectionPoint>, c: Seq<usize>) -> bool {
    &&& forall|k: int| 0 <= k < c.len() ==> (#[trigger] c[k] as int) < s.len()
    &&& forall|k: int|
        0 <= k < c.len() - 1 ==> s[#[trigger] c[k] as int].next == Some(c[k + 1])
}

/// No point occurs twice in `c`.
pub open spec fn no_dup(c: Seq<usize>) -> bool {
    forall|k1: int, k2: int|
        0 <= k1 < c.len() && 0 <= k2 < c.len() && k1 != k2 ==> #[trigger] c[k1] != #[trigger] c[k2]
}

/// No point occurs twice across all chains, nor twice in one chain.
pub open spec fn pairwise_disjoint(cs: Seq<Seq<usize>>) -> bool {
    forall|a: int, b: int, ka: int, kb: int|
        0 <= a < cs.len() && 0 <= b < cs.len() && 0 <= ka < cs[a].len() && 0 <= kb < cs[b].len()
            && (a != b || ka != kb) ==> #[trigger] cs[a][ka] != #[trigger] cs[b][kb]
}

/// The chains that the walk over `s` keeps are well formed: each has at least
/// two points, follows successor links, and visits points that no other chain
/// visits.
pub open spec fn chains_well_formed(s: Seq<LinkedIntersectionPoint>, cs: Seq<Seq<usize>>) -> bool {
    &&& forall|a: int| 0 <= a < cs.len() ==> (#[trigger] cs[a]).len() >= 2
    &&& forall|a: int| 0 <= a < cs.len() ==> follows_links(s, #[trigger] cs[a])
    &&& pairwise_disjoint(cs)
}

spec fn pass_inv(s: Seq<LinkedIntersectionPoint>, vis: Seq<bool>, cs: Seq<Seq<usize>>) -> bool {
    &&& vis.len() == s.len()
    &&& chains_well_formed(s, cs)
    &&& forall|a: int, k: int|
        0 <= a < cs.len() && 0 <= k < cs[a].len() ==> vis[#[trigger] cs[a][k] as int]
}

proof fn lemma_walk(
    s: Seq<LinkedIntersectionPoint>,
    vis0: Seq<bool>,
    vis: Seq<bool>,
    cur: int,
    chain: Seq<usize>,
)
    requires
        next_in_range(s),
        vis.len() == s.len(),
        vis0.len() == s.len(),
        chain.len() >= 1,
        chain.last() as int == cur,
        follows_links(s, chain),
        no_dup(chain),
        forall|k: int| 0 <= k < chain.len() ==> vis[#[trigger] chain[k] as int],
        forall|k: int| 0 <= k < chain.len() ==> !vis0[#[trigger] chain[k] as int],
        forall|x: int| 0 <= x < s.len() && #[trigger] vis0[x] ==> vis[x],
    ensures
        ({
            let (v, c) = walk(s, vis, cur, chain);
            &&& v.len() == s.len()
            &&& c.len() >= chain.len()
            &&& c[0] == chain[0]
            &&& follows_links(s, c)
            &&& no_dup(c)
            &&& forall|k: int| 0 <= k < c.len() ==> v[#[trigger] c[k] as int]
            &&& forall|k: int| 0 <= k < c.len() ==> !vis0[#[trigger] c[k] as int]
            &&& forall|x: int| 0 <= x < s.len() && #[trigger] vis[x] ==> v[x]
        }),
    decreases count_unvisited(vis),
{
    match s[cur].next {
        None => {},
        Some(nxt) => {
            if nxt >= vis.len() || vis[nxt as int] {
            } else {
                lemma_count_unvisited_mark(vis, nxt as int);
                let vis2 = vis.update(nxt as int, true);
                let chain2 = chain.push(nxt);
                assert(follows_links(s, chain2)) by {
                    assert forall|k: int| 0 <= k < chain2.len() - 1 implies s[#[trigger] chain2[k] as int].next
                        == Some(chain2[k + 1]) by {
                        if k == chain.len() - 1 {
                        } else {
                            assert(chain2[k] == chain[k]);
                        }
                    }
                }
                assert(no_dup(chain2)) by {
                    assert forall|k1: int, k2: int|
                        0 <= k1 < chain2.len() && 0 <= k2 < chain2.len() && k1 != k2
                        implies #[trigger] chain2[k1] != #[trigger] chain2[k2] by {
                        if k1 == chain.len() {
                            assert(vis[chain[k2] as int]);
                        } else if k2 == chain.len() {
                            assert(vis[chain[k1] as int]);
                        }
                    }
                }
                assert forall|k: int| 0 <= k < chain2.len() implies vis2[#[trigger] chain2[k] as int] by {
                    if k < chain.len() {
                        assert(chain2[k] == chain[k]);
                    }
                }
                assert forall|k: int| 0 <= k < chain2.len() implies !vis0[#[trigger] chain2[k] as int] by {
                    if k < chain.len() {
                        assert(chain2[k] == chain[k]);
                    }
                }
                assert(chain2[0] == chain[0]);
                assert forall|x: int| 0 <= x < s.len() && #[trigger] vis0[x] implies vis2[x] by {
                    assert(vis[x]);
                }
                lemma_walk(s, vis0, vis2, nxt as int, chain2);
                let (v, c) = walk(s, vis2, nxt as int, chain2);
                assert(walk(s, vis, cur, chain) == (v, c));
                assert forall|x: int| 0 <= x < s.len() && #[trigger] vis[x] implies v[x] by {
                    assert(vis2[x]);
                }
            }
        },
    }
}

proof fn lemma_pass(
    s: Seq<LinkedIntersectionPoint>,
    only_heads: bool,
    vis: Seq<bool>,
    cs: Seq<Seq<usize>>,
    k: int,
)
    requires
        next_in_range(s),
        s.len() <= usize::MAX,
        0 <= k <= s.len(),
        pass_inv(s, vis, cs),
    ensures
        pass_inv(s, pass(s, only_heads, vis, cs, k).0, pass(s, only_heads, vis, cs, k).1),
    decreases k,
{
    if k > 0 {
        lemma_pass(s, only_heads, vis, cs, k - 1);
        let (v, c) = pass(s, only_heads, vis, cs, k - 1);
        let st = k - 1;
        if v[st] || (only_heads && s[st].prev is Some) {
        } else {
            let v1 = v.update(st, true);
            let start = seq![st as usize];
            lemma_walk(s, v, v1, st, start);
            let (v2, ch) = walk(s, v1, st, start);
            if ch.len() >= 2 {
                let c2 = c.push(ch);
                assert(pairwise_disjoint(c2)) by {
                    assert forall|a: int, b: int, ka: int, kb: int|
                        0 <= a < c2.len() && 0 <= b < c2.len() && 0 <= ka < c2[a].len() && 0
                            <= kb < c2[b].len() && (a != b || ka != kb) implies #[trigger] c2[a][ka]
                        != #[trigger] c2[b][kb] by {
                        if a == c.len() && b == c.len() {
                        } else if a == c.len() {
                            assert(v[c[b][kb] as int]);
                            assert(!v[ch[ka] as int]);
                        } else if b == c.len() {
                            assert(v[c[a][ka] as int]);
                            assert(!v[ch[kb] as int]);
                        } else {
                            assert(c2[a] == c[a]);
                            assert(c2[b] == c[b]);
                        }
                    }
                }
                assert forall|a: int| 0 <= a < c2.len() implies follows_links(s, #[trigger] c2[a]) by {
                    if a < c.len() {
                        assert(c2[a] == c[a]);
                    }
                }
                assert forall|a: int, kk: int|
                    0 <= a < c2.len() && 0 <= kk < c2[a].len() implies v2[#[trigger] c2[a][kk] as int] by {
                    if a < c.len() {
                        assert(c2[a] == c[a]);
                        assert(v[c[a][kk] as int]);
                        assert(v1[c[a][kk] as int]);
                    }
                }
            } else {
                assert forall|a: int, kk: int|
                    0 <= a < c.len() && 0 <= kk < c[a].len() implies v2[#[trigger] c[a][kk] as int] by {
                    assert(v[c[a][kk] as int]);
                    assert(v1[c[a][kk] as int]);
                }
            }
        }
    }
}

/// The chains of points whose successor links stay inside the point set are
/// well formed: at least two points each, following successor links, and no
/// point in two places.
pub proof fn lemma_chains_well_formed(s: Seq<LinkedIntersectionPoint>)
    requires
        next_in_range(s),
        s.len() <= usize::MAX,
    ensures
        chains_well_formed(s, spec_chains(s)),
{
    let n = s.len() as int;
    let v0 = Seq::new(s.len(), |i: int| false);
    let e = Seq::<Seq<usize>>::empty();
    assert(pass_inv(s, v0, e));
    lemma_pass(s, true, v0, e, n);
    let first = pass(s, true, v0, e, n);
    lemma_pass(s, false, first.0, first.1, n);
}

proof fn lemma_walk_len(s: Seq<LinkedIntersectionPoint>, vis: Seq<bool>, cur: int, chain: Seq<usize>)
    ensures
        walk(s, vis, cur, chain).0.len() == vis.len(),
    decreases count_unvisited(vis),
{
    match s[cur].next {
        None => {},
        Some(nxt) => {
            if nxt >= vis.len() || vis[nxt as int] {
            } else {
                lemma_count_unvisited_mark(vis, nxt as int);
                lemma_walk_len(s, vis.update(nxt as int, true), nxt as int, chain.push(nxt));
            }
        },
    }
}

/// Marks `st` visited and follows successor links from it; returns the points
/// reached, starting with `st`.
fn walk_from(pts: &Vec<LinkedIntersectionPoint>, vis: &mut Vec<bool>, st: usize) -> (chain: Vec<usize>)
    requires
        next_in_range(pts@),
        old(vis)@.len() == pts@.len(),
        st < pts@.len(),
    ensures
        (final(vis)@, chain@) == walk(pts@, old(vis)@.update(st as int, true), st as int, seq![st]),
        final(vis)@.len() == pts@.len(),
{
    proof {
        lemma_walk_len(pts@, old(vis)@.update(st as int, true), st as int, seq![st]);
    }
    vis.set(st, true);
    let mut chain: Vec<usize> = Vec::new();
    chain.push(st);
    let ghost target = walk(pts@, vis@, st as int, chain@);
    assert(chain@ == seq![st]);
    let mut cur = st;
    loop
        invariant
            next_in_range(pts@),
            vis@.len() == pts@.len(),
            cur < pts@.len(),
            walk(pts@, vis@, cur as int, chain@) == target,
        ensures
            (vis@, chain@) == target,
        decreases count_unvisited(vis@),
    {
        match pts[cur].next {
            None => {
                break;
            },
            Some(nxt) => {
                if vis[nxt] {
                    break;
                }
                proof {
                    lemma_count_unvisited_mark(vis@, nxt as int);
                }
                vis.set(nxt, true);
                chain.push(nxt);
                cur = nxt;
            },
        }
    }
    chain
}

/// One scan over all start points, as `pass` describes it.
fn chain_pass(
    pts: &Vec<LinkedIntersectionPoint>,
    vis: &mut Vec<bool>,
    chains: &mut Vec<Vec<usize>>,
    only_heads: bool,
)
    requires
        next_in_range(pts@),
        old(vis)@.len() == pts@.len(),
    ensures
        (final(vis)@, matrix_view(final(chains)@)) == pass(
            pts@,
            only_heads,
            old(vis)@,
            matrix_view(old(chains)@),
            pts@.len() as int,
        ),
        final(vis)@.len() == pts@.len(),
{
    let n: usize = pts.len();
    let ghost vis0 = vis@;
    let ghost chains0 = matrix_view(chains@);
    let mut st: usize = 0;
    while st < n
        invariant
            n == pts@.len(),
            next_in_range(pts@),
            0 <= st <= n,
            vis@.len() == n,
            (vis@, matrix_view(chains@)) == pass(pts@, only_heads, vis0, chains0, st as int),
        decreases n - st,
    {
        if !vis[st] && !(only_heads && pts[st].prev.is_some()) {
            let ghost before = matrix_view(chains@);
            let chain = walk_from(pts, vis, st);
            if chain.len() >= 2 {
                chains.push(chain);
                assert(matrix_view(chains@) =~= before.push(chain@));
            }
        }
        st = st + 1;
    }
}

/// Walks the successor links into chains of point indices.
///
/// A first scan starts a chain at every point without predecessor; a second
/// scan starts one at every point not visited yet, which picks up closed
/// loops. A walk stops at a point without successor or whose successor was
/// already visited. Only chains of at least two points are returned.
pub fn extract_chains(pts: &Vec<LinkedIntersectionPoint>) -> (chains: Vec<Vec<usize>>)
    requires
        next_in_range(pts@),
    ensures
        matrix_view(chains@) == spec_chains(pts@),
        chains_well_formed(pts@, matrix_view(chains@)),
        links_consistent(pts@) ==> chain_ends_proper(pts@, matrix_view(chains@)),
        links_consistent(pts@) ==> linked_points_covered(pts@, matrix_view(chains@)),
        links_consistent(pts@) ==> chains_in_scan_order(pts@, matrix_view(chains@)),
{
    let n: usize = pts.len();
    let mut vis: Vec<bool> = Vec::new();
    let mut i: usize = 0;
    while i < n
        invariant
            0 <= i <= n,
            vis@ == Seq::new(i as nat, |k: int| false),
        decreases n - i,
    {
        vis.push(false);
        i = i + 1;
        assert(vis@ =~= Seq::new(i as nat, |k: int| false));
    }
    let mut chains: Vec<Vec<usize>> = Vec::new();
    assert(matrix_view(chains@) =~= Seq::<Seq<usize>>::empty());
    chain_pass(pts, &mut vis, &mut chains, true);
    chain_pass(pts, &mut vis, &mut chains, false);
    proof {
        lemma_chains_well_formed(pts@);
        if links_consistent(pts@) {
            lemma_chains_cover_links(pts@);
        }
    }
    chains
}

/// Linking points with consistent links (fresh points in particular) and
/// walking the links gives well-formed chains in which each point is the
/// predecessor of the next one and consecutive points come from different
/// iso-lines; the linked points satisfy what chain extraction requires.
pub proof fn lemma_chains_of_linked_points(
    s: Seq<LinkedIntersectionPoint>,
    cand: Seq<Seq<Option<u64>>>,
)
    requires
        is_square(cand, s.len() as int),
        s.len() <= usize::MAX,
        links_consistent(s),
    ensures
        ({
            let t = linked(s, cand, s.len() as int);
            let cs = spec_chains(t);
            &&& next_in_range(t)
            &&& chains_well_formed(t, cs)
            &&& forall|a: int, k: int|
                0 <= a < cs.len() && 0 <= k < cs[a].len() - 1 ==> {
                    &&& t[cs[a][k + 1] as int].prev == Some(#[trigger] cs[a][k])
                    &&& t[cs[a][k] as int].grid_source != t[cs[a][k + 1] as int].grid_source
                }
        }),
{
    let n = s.len() as int;
    lemma_linking_keeps_links_consistent(s, cand, n);
    let t = linked(s, cand, n);
    assert(next_in_range(t)) by {
        assert forall|i: int| 0 <= i < t.len() && (#[trigger] t[i]).next is Some implies (
        t[i].next->0 as int) < t.len() by {
        }
    }
    lemma_chains_well_formed(t);
    let cs = spec_chains(t);
    assert forall|a: int, k: int| 0 <= a < cs.len() && 0 <= k < cs[a].len() - 1 implies {
        &&& t[cs[a][k + 1] as int].prev == Some(#[trigger] cs[a][k])
        &&& t[cs[a][k] as int].grid_source != t[cs[a][k + 1] as int].grid_source
    } by {
        assert(follows_links(t, cs[a]));
        let x = cs[a][k] as int;
        assert(x < t.len());
        assert(t[x].next == Some(cs[a][k + 1]));
    }
}

proof fn lemma_best_below_none(
    s: Seq<LinkedIntersectionPoint>,
    cand: Seq<Seq<Option<u64>>>,
    i: int,
    k: int,
)
    ensures
        best_below(s, cand, i, k) is None <==> forall|j: int| 0 <= j < k ==> !#[trigger] eligible(s, cand, i, j),
    decreases k,
{
    if k > 0 {
        lemma_best_below_none(s, cand, i, k - 1);
        lemma_best_below_eligible(s, cand, i, k - 1);
    }
}

/// A linking step keeps every point's iso-line, never removes a link, and
/// only gives a successor to point `i`.
proof fn lemma_link_step_monotone(s: Seq<LinkedIntersectionPoint>, cand: Seq<Seq<Option<u64>>>, i: int)
    requires
        0 <= i < s.len(),
    ensures
        link_step(s, cand, i).len() == s.len(),
        forall|p: int|
            0 <= p < s.len() ==> {
                &&& (#[trigger] link_step(s, cand, i)[p]).grid_source == s[p].grid_source
                &&& s[p].prev is Some ==> link_step(s, cand, i)[p].prev == s[p].prev
                &&& s[p].next is Some ==> link_step(s, cand, i)[p].next == s[p].next
                &&& p != i ==> link_step(s, cand, i)[p].next == s[p].next
            },
        link_step(s, cand, i)[i].next is None ==> best_below(s, cand, i, s.len() as int) is None,
{
    lemma_best_below_eligible(s, cand, i, s.len() as int);
}

proof fn lemma_linked_monotone(s: Seq<LinkedIntersectionPoint>, cand: Seq<Seq<Option<u64>>>, p: int, q: int)
    requires
        0 <= p <= q <= s.len(),
    ensures
        linked(s, cand, q).len() == s.len(),
        forall|x: int|
            0 <= x < s.len() ==> {
                &&& (#[trigger] linked(s, cand, q)[x]).grid_source == linked(s, cand, p)[x].grid_source
                &&& linked(s, cand, p)[x].prev is Some ==> linked(s, cand, q)[x].prev is Some
                &&& linked(s, cand, p)[x].next is Some ==> linked(s, cand, q)[x].next is Some
                &&& (x < p || x >= q) ==> linked(s, cand, q)[x].next == linked(s, cand, p)[x].next
            },
    decreases q - p,
{
    if q > p {
        lemma_linked_monotone(s, cand, p, q - 1);
        lemma_linked_monotone_len(s, cand, q - 1);
        lemma_link_step_monotone(linked(s, cand, q - 1), cand, q - 1);
    } else {
        lemma_linked_monotone_len(s, cand, q);
    }
}

proof fn lemma_linked_monotone_len(s: Seq<LinkedIntersectionPoint>, cand: Seq<Seq<Option<u64>>>, k: int)
    requires
        0 <= k <= s.len(),
    ensures
        linked(s, cand, k).len() == s.len(),
    decreases k,
{
    if k > 0 {
        lemma_linked_monotone_len(s, cand, k - 1);
        lemma_link_step_monotone(linked(s, cand, k - 1), cand, k - 1);
    }
}

/// After linking, a point without successor has no eligible successor left.
proof fn lemma_linked_no_eligible_left(s: Seq<LinkedIntersectionPoint>, cand: Seq<Seq<Option<u64>>>, i: int, j: int)
    requires
        0 <= i < s.len(),
        0 <= j < s.len(),
        linked(s, cand, s.len() as int)[i].next is None,
    ensures
        !eligible(linked(s, cand, s.len() as int), cand, i, j),
{
    let n = s.len() as int;
    let si = linked(s, cand, i);
    let si1 = linked(s, cand, i + 1);
    lemma_linked_monotone(s, cand, i + 1, n);
    lemma_linked_monotone(s, cand, i, n);
    lemma_linked_monotone_len(s, cand, i);
    lemma_link_step_monotone(si, cand, i);
    assert(si1[i].next is None);
    lemma_best_below_none(si, cand, i, n);
    assert(!eligible(si, cand, i, j));
}

/// Linking is idempotent: linking already linked points changes nothing.
pub proof fn lemma_linking_is_idempotent(s: Seq<LinkedIntersectionPoint>, cand: Seq<Seq<Option<u64>>>)
    ensures
        ({
            let t = linked(s, cand, s.len() as int);
            linked(t, cand, t.len() as int) == t
        }),
{
    let n = s.len() as int;
    lemma_linked_monotone_len(s, cand, n);
    lemma_linked_fixpoint(s, cand, n);
}

proof fn lemma_linked_fixpoint(s: Seq<LinkedIntersectionPoint>, cand: Seq<Seq<Option<u64>>>, k: int)
    requires
        0 <= k <= s.len(),
    ensures
        linked(linked(s, cand, s.len() as int), cand, k) == linked(s, cand, s.len() as int),
    decreases k,
{
    let n = s.len() as int;
    let t = linked(s, cand, n);
    lemma_linked_monotone_len(s, cand, n);
    if k > 0 {
        lemma_linked_fixpoint(s, cand, k - 1);
        let i = k - 1;
        if t[i].next is None {
            assert forall|j: int| 0 <= j < n implies !#[trigger] eligible(t, cand, i, j) by {
                lemma_linked_no_eligible_left(s, cand, i, j);
            }
            lemma_best_below_none(t, cand, i, n);
        }
    }
}

/// Linking only adds links: every point keeps its iso-line and the links it had.
pub open spec fn keeps_old_links(s: Seq<LinkedIntersectionPoint>, t: Seq<LinkedIntersectionPoint>) -> bool {
    &&& t.len() == s.len()
    &&& forall|p: int|
        0 <= p < s.len() ==> {
            &&& (#[trigger] t[p]).grid_source == s[p].grid_source
            &&& s[p].next is Some ==> t[p].next == s[p].next
            &&& s[p].prev is Some ==> t[p].prev == s[p].prev
        }
}

/// Point `q` was still free to follow point `i` when `i` was linked (points are
/// linked in index order): it had no predecessor in `s`, and the predecessor
/// that linking gave it, if any, is not a point before `i`.
pub open spec fn free_when_linking(
    s: Seq<LinkedIntersectionPoint>,
    t: Seq<LinkedIntersectionPoint>,
    q: int,
    i: int,
) -> bool {
    &&& s[q].prev is None
    &&& (t[q].prev is None || t[q].prev->0 as int >= i)
}

/// Each point among `0..k` that had no successor in `s` and has one in `t` got
/// a point that had no predecessor, comes from another iso-line, lies within
/// the linking threshold (`cand[i][j]` is `Some`) and now has it as
/// predecessor. No point that was still free to follow it when it was linked
/// (see `free_when_linking`), from another iso-line and within the threshold,
/// is nearer, and none equally near has a smaller index.
pub open spec fn new_links_nearest(
    s: Seq<LinkedIntersectionPoint>,
    cand: Seq<Seq<Option<u64>>>,
    t: Seq<LinkedIntersectionPoint>,
    k: int,
) -> bool {
    forall|i: int|
        0 <= i < k && s[i].next is None && (#[trigger] t[i]).next is Some ==> {
            let j = t[i].next->0 as int;
            &&& 0 <= j < s.len()
            &&& j != i
            &&& s[j].prev is None
            &&& s[j].grid_source != s[i].grid_source
            &&& cand[i][j] is Some
            &&& t[j].prev == Some(i as usize)
            &&& forall|q: int|
                0 <= q < s.len() && q != i && free_when_linking(s, t, q, i) && s[q].grid_source
                    != s[i].grid_source && (#[trigger] cand[i][q]) is Some ==> {
                    &&& cand[i][j]->0 <= cand[i][q]->0
                    &&& q < j ==> cand[i][j]->0 < cand[i][q]->0
                }
        }
}

/// No point among `0..k` was left without a successor while a point free to
/// follow it when it was handled (see `free_when_linking`), from another
/// iso-line, lies within the threshold.
pub open spec fn no_link_missed(
    s: Seq<LinkedIntersectionPoint>,
    cand: Seq<Seq<Option<u64>>>,
    t: Seq<LinkedIntersectionPoint>,
    k: int,
) -> bool {
    forall|i: int|
        0 <= i < k && s[i].next is None && (#[trigger] t[i]).next is None ==> forall|q: int|
            0 <= q < s.len() && q != i && free_when_linking(s, t, q, i) && s[q].grid_source != s[i].grid_source
                ==> (#[trigger] cand[i][q]) is None
}

/// Every predecessor link that `t` adds to `s` comes with the matching
/// successor link, given to a point among `0..k` that had no successor.
pub open spec fn new_links_paired(
    s: Seq<LinkedIntersectionPoint>,
    t: Seq<LinkedIntersectionPoint>,
    k: int,
) -> bool {
    forall|j: int|
        0 <= j < s.len() && s[j].prev is None && (#[trigger] t[j]).prev is Some ==> {
            let i = t[j].prev->0 as int;
            &&& 0 <= i < k
            &&& s[i].next is None
            &&& t[i].next == Some(j as usize)
        }
}

proof fn lemma_best_below_min(
    s: Seq<LinkedIntersectionPoint>,
    cand: Seq<Seq<Option<u64>>>,
    i: int,
    k: int,
)
    ensures
        best_below(s, cand, i, k) matches Some(j) ==> forall|q: int|
            0 <= q < k && #[trigger] eligible(s, cand, i, q) ==> {
                &&& cand[i][j]->0 <= cand[i][q]->0
                &&& q < j ==> cand[i][j]->0 < cand[i][q]->0
            },
    decreases k,
{
    if k > 0 {
        lemma_best_below_min(s, cand, i, k - 1);
        lemma_best_below_none(s, cand, i, k - 1);
        lemma_best_below_eligible(s, cand, i, k - 1);
    }
}

proof fn lemma_link_choice_step(
    s: Seq<LinkedIntersectionPoint>,
    cand: Seq<Seq<Option<u64>>>,
    tk: Seq<LinkedIntersectionPoint>,
    i: int,
)
    requires
        is_square(cand, s.len() as int),
        s.len() <= usize::MAX,
        0 <= i < s.len(),
        keeps_old_links(s, tk),
        forall|p: int| i <= p < s.len() ==> (#[trigger] tk[p]).next == s[p].next,
        new_links_nearest(s, cand, tk, i),
        no_link_missed(s, cand, tk, i),
        new_links_paired(s, tk, i),
    ensures
        keeps_old_links(s, link_step(tk, cand, i)),
        forall|p: int| i + 1 <= p < s.len() ==> (#[trigger] link_step(tk, cand, i)[p]).next == s[p].next,
        new_links_nearest(s, cand, link_step(tk, cand, i), i + 1),
        no_link_missed(s, cand, link_step(tk, cand, i), i + 1),
        new_links_paired(s, link_step(tk, cand, i), i + 1),
{
    let n = s.len() as int;
    let t1 = link_step(tk, cand, i);
    lemma_link_step_monotone(tk, cand, i);
    lemma_best_below_eligible(tk, cand, i, n);
    lemma_best_below_none(tk, cand, i, n);
    lemma_best_below_min(tk, cand, i, n);
    if tk[i].next is Some {
        assert(t1 == tk);
    } else {
        match best_below(tk, cand, i, n) {
            None => {
                assert(t1 == tk);
                assert forall|a: int|
                    0 <= a < i + 1 && s[a].next is None && (#[trigger] t1[a]).next is None implies forall|q: int|
                    0 <= q < s.len() && q != a && free_when_linking(s, t1, q, a) && s[q].grid_source
                        != s[a].grid_source ==> (#[trigger] cand[a][q]) is None by {
                    if a == i {
                        assert forall|q: int|
                            0 <= q < s.len() && q != a && free_when_linking(s, t1, q, a) && s[q].grid_source
                                != s[a].grid_source implies (#[trigger] cand[a][q]) is None by {
                            assert(tk[q] == t1[q]);
                            assert(tk[q].prev is None);
                            assert(tk[q].grid_source == s[q].grid_source);
                            assert(!eligible(tk, cand, i, q));
                        }
                    }
                }
            },
            Some(j) => {
                assert(eligible(tk, cand, i, j));
                assert(0 <= j < n);
                assert(t1[i].next == Some(j as usize));
                assert(t1[j].prev == Some(i as usize));
                assert(forall|p: int| 0 <= p < n && p != i && p != j ==> t1[p] == tk[p]);
                assert(s[j].prev is None) by {
                    if s[j].prev is Some {
                        assert(tk[j].prev == s[j].prev);
                    }
                }
                assert(keeps_old_links(s, t1)) by {
                    assert forall|p: int| 0 <= p < s.len() implies {
                        &&& (#[trigger] t1[p]).grid_source == s[p].grid_source
                        &&& s[p].next is Some ==> t1[p].next == s[p].next
                        &&& s[p].prev is Some ==> t1[p].prev == s[p].prev
                    } by {
                        assert(tk[p].grid_source == s[p].grid_source);
                    }
                }
                assert forall|a: int|
                    0 <= a < i + 1 && s[a].next is None && (#[trigger] t1[a]).next is Some implies {
                    let b = t1[a].next->0 as int;
                    &&& 0 <= b < s.len()
                    &&& b != a
                    &&& s[b].prev is None
                    &&& s[b].grid_source != s[a].grid_source
                    &&& cand[a][b] is Some
                    &&& t1[b].prev == Some(a as usize)
                    &&& forall|q: int|
                        0 <= q < s.len() && q != a && free_when_linking(s, t1, q, a) && s[q].grid_source
                            != s[a].grid_source && (#[trigger] cand[a][q]) is Some ==> {
                            &&& cand[a][b]->0 <= cand[a][q]->0
                            &&& q < b ==> cand[a][b]->0 < cand[a][q]->0
                        }
                } by {
                    if a == i {
                        assert(tk[i].grid_source == s[i].grid_source);
                        assert(tk[j].grid_source == s[j].grid_source);
                        assert forall|q: int|
                            0 <= q < s.len() && q != a && free_when_linking(s, t1, q, a) && s[q].grid_source
                                != s[a].grid_source && (#[trigger] cand[a][q]) is Some implies {
                            &&& cand[a][j]->0 <= cand[a][q]->0
                            &&& q < j ==> cand[a][j]->0 < cand[a][q]->0
                        } by {
                            if q != j {
                                assert(tk[q] == t1[q]);
                                assert(tk[q].prev is None);
                                assert(tk[q].grid_source == s[q].grid_source);
                                assert(eligible(tk, cand, i, q));
                            }
                        }
                    } else {
                        assert(t1[a].next == tk[a].next);
                        let b = tk[a].next->0 as int;
                        assert(tk[b].prev == Some(a as usize));
                        assert(b != j);
                        assert(t1[b].prev == tk[b].prev);
                        assert forall|q: int|
                            0 <= q < s.len() && q != a && free_when_linking(s, t1, q, a) && s[q].grid_source
                                != s[a].grid_source && (#[trigger] cand[a][q]) is Some implies {
                            &&& cand[a][b]->0 <= cand[a][q]->0
                            &&& q < b ==> cand[a][b]->0 < cand[a][q]->0
                        } by {
                            if q != j {
                                assert(t1[q].prev == tk[q].prev);
                            }
                            assert(free_when_linking(s, tk, q, a));
                        }
                    }
                }
                assert forall|a: int|
                    0 <= a < i + 1 && s[a].next is None && (#[trigger] t1[a]).next is None implies forall|q: int|
                    0 <= q < s.len() && q != a && free_when_linking(s, t1, q, a) && s[q].grid_source
                        != s[a].grid_source ==> (#[trigger] cand[a][q]) is None by {
                    assert(a != i);
                    assert(t1[a].next == tk[a].next);
                    assert forall|q: int|
                        0 <= q < s.len() && q != a && free_when_linking(s, t1, q, a) && s[q].grid_source
                            != s[a].grid_source implies (#[trigger] cand[a][q]) is None by {
                        if q != j {
                            assert(t1[q].prev == tk[q].prev);
                        }
                        assert(free_when_linking(s, tk, q, a));
                    }
                }
                assert forall|b: int|
                    0 <= b < s.len() && s[b].prev is None && (#[trigger] t1[b]).prev is Some implies {
                    let a = t1[b].prev->0 as int;
                    &&& 0 <= a < i + 1
                    &&& s[a].next is None
                    &&& t1[a].next == Some(b as usize)
                } by {
                    if b != j {
                        if b != i {
                            assert(tk[b] == t1[b]);
                        }
                        assert(tk[b].prev == t1[b].prev);
                        let a = tk[b].prev->0 as int;
                        assert(tk[a].next == Some(b as usize));
                        assert(a != i);
                        assert(t1[a] == tk[a] || a == j);
                    }
                }
            },
        }
    }
}

proof fn lemma_linked_choices(s: Seq<LinkedIntersectionPoint>, cand: Seq<Seq<Option<u64>>>, k: int)
    requires
        is_square(cand, s.len() as int),
        s.len() <= usize::MAX,
        0 <= k <= s.len(),
    ensures
        keeps_old_links(s, linked(s, cand, k)),
        forall|p: int| k <= p < s.len() ==> (#[trigger] linked(s, cand, k)[p]).next == s[p].next,
        new_links_nearest(s, cand, linked(s, cand, k), k),
        no_link_missed(s, cand, linked(s, cand, k), k),
        new_links_paired(s, linked(s, cand, k), k),
    decreases k,
{
    if k > 0 {
        lemma_linked_choices(s, cand, k - 1);
        lemma_link_choice_step(s, cand, linked(s, cand, k - 1), k - 1);
    }
}

/// Linking handles the points in index order and links each point without
/// successor to the nearest point free to follow it: only points within the
/// threshold that come from another iso-line and have no predecessor are
/// linked, the nearest of those still free wins (the smallest index among
/// equally near ones), a point is left without successor only when no point
/// free at its turn lies within the threshold, every
/// added predecessor matches an added successor, and existing links and
/// iso-lines are kept.
pub proof fn lemma_linking_picks_nearest_free_point(
    s: Seq<LinkedIntersectionPoint>,
    cand: Seq<Seq<Option<u64>>>,
)
    requires
        is_square(cand, s.len() as int),
        s.len() <= usize::MAX,
    ensures
        keeps_old_links(s, linked(s, cand, s.len() as int)),
        new_links_nearest(s, cand, linked(s, cand, s.len() as int), s.len() as int),
        no_link_missed(s, cand, linked(s, cand, s.len() as int), s.len() as int),
        new_links_paired(s, linked(s, cand, s.len() as int), s.len() as int),
{
    lemma_linked_choices(s, cand, s.len() as int);
}

/// Every chain either runs from a point without predecessor to a point
/// without successor, or is a closed loop: its last point has its first point
/// as successor.
pub open spec fn chain_ends_proper(s: Seq<LinkedIntersectionPoint>, cs: Seq<Seq<usize>>) -> bool {
    forall|a: int|
        0 <= a < cs.len() ==> {
            ||| (s[(#[trigger] cs[a])[0] as int].prev is None && s[cs[a].last() as int].next is None)
            ||| s[cs[a].last() as int].next == Some(cs[a][0])
        }
}

/// Every point that has a successor or a predecessor lies in some chain.
pub open spec fn linked_points_covered(s: Seq<LinkedIntersectionPoint>, cs: Seq<Seq<usize>>) -> bool {
    forall|x: int|
        0 <= x < s.len() && ((#[trigger] s[x]).next is Some || s[x].prev is Some) ==> exists|a: int, k: int|
            0 <= a < cs.len() && 0 <= k < cs[a].len() && #[trigger] cs[a][k] as int == x
}

spec fn vis_closed(s: Seq<LinkedIntersectionPoint>, vis: Seq<bool>) -> bool {
    &&& forall|x: int|
        0 <= x < s.len() && vis[x] && (#[trigger] s[x]).next is Some ==> vis[s[x].next->0 as int]
    &&& forall|x: int|
        0 <= x < s.len() && vis[x] && (#[trigger] s[x]).prev is Some ==> vis[s[x].prev->0 as int]
}

spec fn vis_covered(s: Seq<LinkedIntersectionPoint>, vis: Seq<bool>, cs: Seq<Seq<usize>>) -> bool {
    forall|x: int|
        0 <= x < s.len() && vis[x] && ((#[trigger] s[x]).next is Some || s[x].prev is Some) ==> exists|a: int, k: int|
            0 <= a < cs.len() && 0 <= k < cs[a].len() && #[trigger] cs[a][k] as int == x
}

proof fn lemma_consistent_in_range(s: Seq<LinkedIntersectionPoint>)
    requires
        links_consistent(s),
    ensures
        next_in_range(s),
{
    assert forall|i: int| 0 <= i < s.len() && (#[trigger] s[i]).next is Some implies (s[i].next->0 as int)
        < s.len() by {
    }
}

proof fn lemma_walk_stop(s: Seq<LinkedIntersectionPoint>, vis: Seq<bool>, cur: int, chain: Seq<usize>)
    requires
        next_in_range(s),
        vis.len() == s.len(),
        chain.len() >= 1,
        chain.last() as int == cur,
        0 <= cur < s.len(),
    ensures
        ({
            let (v, c) = walk(s, vis, cur, chain);
            &&& c.len() >= chain.len()
            &&& forall|k: int| 0 <= k < chain.len() ==> #[trigger] c[k] == chain[k]
            &&& forall|x: int| 0 <= x < s.len() && #[trigger] v[x] && !vis[x] ==> c.contains(x as usize)
            &&& 0 <= c.last() < s.len()
            &&& s[c.last() as int].next matches Some(y) ==> v[y as int]
        }),
    decreases count_unvisited(vis),
{
    match s[cur].next {
        None => {},
        Some(nxt) => {
            if nxt >= vis.len() || vis[nxt as int] {
            } else {
                lemma_count_unvisited_mark(vis, nxt as int);
                let vis2 = vis.update(nxt as int, true);
                let chain2 = chain.push(nxt);
                lemma_walk_stop(s, vis2, nxt as int, chain2);
                let (v, c) = walk(s, vis2, nxt as int, chain2);
                assert(walk(s, vis, cur, chain) == (v, c));
                assert forall|k: int| 0 <= k < chain.len() implies #[trigger] c[k] == chain[k] by {
                    assert(c[k] == chain2[k]);
                }
                assert forall|x: int| 0 <= x < s.len() && #[trigger] v[x] && !vis[x] implies c.contains(
                    x as usize,
                ) by {
                    if x == nxt as int {
                        assert(c[chain.len() as int] == chain2[chain.len() as int]);
                    }
                }
            }
        },
    }
}

spec fn walk_facts(
    s: Seq<LinkedIntersectionPoint>,
    v0: Seq<bool>,
    st: int,
    v2: Seq<bool>,
    c: Seq<usize>,
) -> bool {
    &&& v2.len() == s.len()
    &&& c.len() >= 1
    &&& c[0] == st as usize
    &&& follows_links(s, c)
    &&& no_dup(c)
    &&& forall|k: int| 0 <= k < c.len() ==> v2[#[trigger] c[k] as int]
    &&& forall|k: int| 0 <= k < c.len() ==> !v0[#[trigger] c[k] as int]
    &&& forall|x: int| 0 <= x < s.len() && #[trigger] v0[x] ==> v2[x]
    &&& forall|x: int| 0 <= x < s.len() && #[trigger] v2[x] && !v0[x] ==> c.contains(x as usize)
}

#[verifier::opaque]
spec fn links_agree(s: Seq<LinkedIntersectionPoint>) -> bool {
    links_consistent(s)
}

proof fn lemma_link_facts(s: Seq<LinkedIntersectionPoint>, i: int)
    requires
        links_agree(s),
        0 <= i < s.len(),
    ensures
        s[i].next matches Some(j) ==> {
            &&& (j as int) < s.len()
            &&& j as int != i
            &&& s[j as int].prev == Some(i as usize)
        },
        s[i].prev matches Some(p) ==> {
            &&& (p as int) < s.len()
            &&& s[p as int].next == Some(i as usize)
        },
{
    reveal(links_agree);
}

proof fn lemma_walk_last_link(
    s: Seq<LinkedIntersectionPoint>,
    v0: Seq<bool>,
    st: int,
    v2: Seq<bool>,
    c: Seq<usize>,
)
    requires
        links_agree(s),
        s.len() <= usize::MAX,
        v0.len() == s.len(),
        0 <= st < s.len(),
        vis_closed(s, v0),
        walk_facts(s, v0, st, v2, c),
        0 <= c.last() < s.len(),
        s[c.last() as int].next matches Some(y) ==> v2[y as int],
    ensures
        s[c.last() as int].next is None || s[c.last() as int].next == Some(st as usize),
        s[c.last() as int].next == Some(st as usize) ==> c.len() >= 2,
{
    let last = c.last() as int;
    assert(c[c.len() - 1] == c.last());
    if s[last].next is Some {
        let y = s[last].next->0 as int;
        lemma_link_facts(s, last);
        assert(s[y].prev == Some(last as usize));
        assert(v2[y]);
        if v0[y] {
            assert(v0[last]);
            assert(!v0[c[c.len() - 1] as int]);
            assert(false);
        }
        assert(c.contains(y as usize));
        let m = choose|m: int| 0 <= m < c.len() && c[m] == y as usize;
        if m > 0 {
            assert(s[c[m - 1] as int].next == Some(c[m]));
            lemma_link_facts(s, c[m - 1] as int);
            assert(s[y].prev == Some(c[m - 1]));
            assert(c[m - 1] == c[c.len() - 1]);
            assert(false);
        }
        assert(y == st);
        if c.len() < 2 {
            assert(last == st);
            assert(false);
        }
    }
}

proof fn lemma_walk_keeps_closed(
    s: Seq<LinkedIntersectionPoint>,
    v0: Seq<bool>,
    st: int,
    v2: Seq<bool>,
    c: Seq<usize>,
)
    requires
        links_agree(s),
        s.len() <= usize::MAX,
        v0.len() == s.len(),
        0 <= st < s.len(),
        vis_closed(s, v0),
        walk_facts(s, v0, st, v2, c),
        0 <= c.last() < s.len(),
        s[c.last() as int].next is None || s[c.last() as int].next == Some(st as usize),
        s[st].prev is None || s[c.last() as int].next == Some(st as usize),
    ensures
        vis_closed(s, v2),
{
    let last = c.last() as int;
    assert(c[c.len() - 1] == c.last());
    assert forall|x: int| 0 <= x < s.len() && v2[x] && (#[trigger] s[x]).next is Some implies v2[s[x].next->0 as int] by {
        let y = s[x].next->0 as int;
        lemma_link_facts(s, x);
        if v0[x] {
            assert(v0[y]);
        } else {
            assert(c.contains(x as usize));
            let m = choose|m: int| 0 <= m < c.len() && c[m] == x as usize;
            if m < c.len() - 1 {
                assert(s[c[m] as int].next == Some(c[m + 1]));
                assert(v2[c[m + 1] as int]);
            } else {
                assert(y == st);
                assert(v2[c[0] as int]);
            }
        }
    }
    assert forall|x: int| 0 <= x < s.len() && v2[x] && (#[trigger] s[x]).prev is Some implies v2[s[x].prev->0 as int] by {
        let p = s[x].prev->0 as int;
        lemma_link_facts(s, x);
        if v0[x] {
            assert(v0[p]);
        } else {
            assert(c.contains(x as usize));
            let m = choose|m: int| 0 <= m < c.len() && c[m] == x as usize;
            if m > 0 {
                assert(s[c[m - 1] as int].next == Some(c[m]));
                lemma_link_facts(s, c[m - 1] as int);
                assert(v2[c[m - 1] as int]);
            } else {
                assert(c[0] == st as usize);
                assert(x == st);
                assert(s[last].next == Some(st as usize));
                lemma_link_facts(s, last);
                assert(v2[c[c.len() - 1] as int]);
            }
        }
    }
}

proof fn lemma_walk_consistent(s: Seq<LinkedIntersectionPoint>, v0: Seq<bool>, st: int)
    requires
        links_agree(s),
        next_in_range(s),
        s.len() <= usize::MAX,
        v0.len() == s.len(),
        0 <= st < s.len(),
        !v0[st],
        vis_closed(s, v0),
    ensures
        ({
            let (v2, c) = walk(s, v0.update(st, true), st, seq![st as usize]);
            &&& walk_facts(s, v0, st, v2, c)
            &&& 0 <= c.last() < s.len()
            &&& s[c.last() as int].next is None || s[c.last() as int].next == Some(st as usize)
            &&& s[st].prev is None ==> s[c.last() as int].next is None
            &&& s[c.last() as int].next == Some(st as usize) ==> c.len() >= 2
            &&& (s[st].prev is None || s[c.last() as int].next == Some(st as usize)) ==> vis_closed(s, v2)
        }),
{
    let v1 = v0.update(st, true);
    let start = seq![st as usize];
    assert(follows_links(s, start));
    assert(no_dup(start));
    lemma_walk(s, v0, v1, st, start);
    lemma_walk_stop(s, v1, st, start);
    lemma_walk_len(s, v1, st, start);
    let (v2, c) = walk(s, v1, st, start);
    assert(c[0] == st as usize);
    assert forall|x: int| 0 <= x < s.len() && #[trigger] v0[x] implies v2[x] by {
        assert(v1[x]);
    }
    assert forall|x: int| 0 <= x < s.len() && #[trigger] v2[x] && !v0[x] implies c.contains(x as usize) by {
        if x == st {
            assert(c[0] == x as usize);
        } else {
            assert(!v1[x]);
        }
    }
    assert(walk_facts(s, v0, st, v2, c));
    lemma_walk_last_link(s, v0, st, v2, c);
    let last = c.last() as int;
    if s[st].prev is None && s[last].next == Some(st as usize) {
        lemma_link_facts(s, last);
        assert(false);
    }
    if s[st].prev is None || s[last].next == Some(st as usize) {
        lemma_walk_keeps_closed(s, v0, st, v2, c);
    }
}

/// Once every point without predecessor is visited and the visited points are
/// closed under links, every unvisited point has a successor: the unvisited
/// points are mapped one to one onto themselves by taking predecessors.
proof fn lemma_unvisited_have_successors(s: Seq<LinkedIntersectionPoint>, vis: Seq<bool>)
    requires
        links_agree(s),
        s.len() <= usize::MAX,
        vis.len() == s.len(),
        vis_closed(s, vis),
        forall|x: int| 0 <= x < s.len() && (#[trigger] s[x]).prev is None ==> vis[x],
    ensures
        forall|x: int| 0 <= x < s.len() && !vis[x] ==> (#[trigger] s[x]).next is Some,
{
    let n = s.len() as int;
    let u = Set::new(|x: int| 0 <= x < n && !vis[x]);
    let f = |x: int| s[x].prev->0 as int;
    vstd::set_lib::lemma_int_range(0, n);
    assert(u.subset_of(vstd::set_lib::set_int_range(0, n)));
    vstd::set_lib::lemma_len_subset(u, vstd::set_lib::set_int_range(0, n));
    assert forall|x1: int, x2: int|
        u.contains(x1) && u.contains(x2) && #[trigger] f(x1) == #[trigger] f(x2) implies x1 == x2 by {
        lemma_link_facts(s, x1);
        lemma_link_facts(s, x2);
        assert(s[x1].prev is Some);
        assert(s[x2].prev is Some);
    }
    assert(vstd::relations::injective_on(f, u));
    let img = u.map(f);
    vstd::set_lib::lemma_map_size(u, img, f);
    assert forall|p: int| img.contains(p) implies u.contains(p) by {
        let x = choose|x: int| u.contains(x) && p == f(x);
        lemma_link_facts(s, x);
        assert(s[x].prev is Some);
        if vis[p] {
            assert(s[p].next == Some(x as usize));
            assert(vis[x]);
        }
    }
    vstd::set_lib::lemma_subset_equality(img, u);
    assert forall|x: int| 0 <= x < s.len() && !vis[x] implies (#[trigger] s[x]).next is Some by {
        assert(u.contains(x));
        assert(img.contains(x));
        let y = choose|y: int| u.contains(y) && x == f(y);
        lemma_link_facts(s, y);
        assert(s[y].prev is Some);
    }
}

proof fn lemma_covered_grows(
    s: Seq<LinkedIntersectionPoint>,
    v: Seq<bool>,
    cs: Seq<Seq<usize>>,
    v2: Seq<bool>,
    cs2: Seq<Seq<usize>>,
    c: Seq<usize>,
)
    requires
        s.len() <= usize::MAX,
        vis_covered(s, v, cs),
        cs2.len() >= cs.len(),
        forall|a: int| 0 <= a < cs.len() ==> #[trigger] cs2[a] == cs[a],
        forall|x: int| 0 <= x < s.len() && #[trigger] v2[x] && !v[x] ==> c.contains(x as usize),
        c.len() >= 2 ==> cs2 == cs.push(c),
        c.len() < 2 ==> forall|x: int|
            0 <= x < s.len() && #[trigger] c.contains(x as usize) ==> s[x].next is None
                && s[x].prev is None,
    ensures
        vis_covered(s, v2, cs2),
{
    assert forall|x: int|
        0 <= x < s.len() && v2[x] && ((#[trigger] s[x]).next is Some || s[x].prev is Some) implies exists|a: int, k: int|
        0 <= a < cs2.len() && 0 <= k < cs2[a].len() && #[trigger] cs2[a][k] as int == x by {
        if v[x] {
            let (a, k) = choose|a: int, k: int|
                0 <= a < cs.len() && 0 <= k < cs[a].len() && #[trigger] cs[a][k] as int == x;
            assert(cs2[a] == cs[a]);
            assert(cs2[a][k] as int == x);
        } else {
            assert(c.contains(x as usize));
            if c.len() < 2 {
                assert(s[x].next is None && s[x].prev is None);
            }
            let k = choose|k: int| 0 <= k < c.len() && c[k] == x as usize;
            assert(cs2 == cs.push(c));
            assert(cs2[cs.len() as int] == c);
            assert(cs2[cs.len() as int][k] as int == x);
        }
    }
}

proof fn lemma_heads_pass(s: Seq<LinkedIntersectionPoint>, vis: Seq<bool>, cs: Seq<Seq<usize>>, k: int)
    requires
        links_agree(s),
        next_in_range(s),
        s.len() <= usize::MAX,
        0 <= k <= s.len(),
        pass_inv(s, vis, cs),
        vis_closed(s, vis),
        vis_covered(s, vis, cs),
        chain_ends_proper(s, cs),
    ensures
        ({
            let (v, c) = pass(s, true, vis, cs, k);
            &&& pass_inv(s, v, c)
            &&& vis_closed(s, v)
            &&& vis_covered(s, v, c)
            &&& chain_ends_proper(s, c)
            &&& forall|x: int| 0 <= x < k && (#[trigger] s[x]).prev is None ==> v[x]
        }),
    decreases k,
{
    lemma_pass(s, true, vis, cs, k);
    if k > 0 {
        lemma_heads_pass(s, vis, cs, k - 1);
        let (v, c) = pass(s, true, vis, cs, k - 1);
        let st = k - 1;
        if v[st] || s[st].prev is Some {
        } else {
            lemma_walk_consistent(s, v, st);
            let (v2, ch) = walk(s, v.update(st, true), st, seq![st as usize]);
            let c2 = if ch.len() >= 2 {
                c.push(ch)
            } else {
                c
            };
            assert(pass(s, true, vis, cs, k) == (v2, c2));
            assert(ch[ch.len() - 1] == ch.last());
            if ch.len() < 2 {
                assert forall|x: int| 0 <= x < s.len() && #[trigger] ch.contains(x as usize) implies s[x].next
                    is None && s[x].prev is None by {
                    assert(ch[0] == x as usize);
                }
            }
            lemma_covered_grows(s, v, c, v2, c2, ch);
            assert(chain_ends_proper(s, c2)) by {
                assert forall|a: int| 0 <= a < c2.len() implies {
                    ||| (s[(#[trigger] c2[a])[0] as int].prev is None && s[c2[a].last() as int].next is None)
                    ||| s[c2[a].last() as int].next == Some(c2[a][0])
                } by {
                    if a < c.len() {
                        assert(c2[a] == c[a]);
                    }
                }
            }
            assert forall|x: int| 0 <= x < k && (#[trigger] s[x]).prev is None implies v2[x] by {
                if x < st {
                    assert(v[x]);
                } else {
                    assert(v2[ch[0] as int]);
                }
            }
        }
    }
}

proof fn lemma_loops_pass(s: Seq<LinkedIntersectionPoint>, vis: Seq<bool>, cs: Seq<Seq<usize>>, k: int)
    requires
        links_agree(s),
        next_in_range(s),
        s.len() <= usize::MAX,
        0 <= k <= s.len(),
        pass_inv(s, vis, cs),
        vis_closed(s, vis),
        vis_covered(s, vis, cs),
        chain_ends_proper(s, cs),
        forall|x: int| 0 <= x < s.len() && !vis[x] ==> (#[trigger] s[x]).next is Some,
    ensures
        ({
            let (v, c) = pass(s, false, vis, cs, k);
            &&& pass_inv(s, v, c)
            &&& vis_closed(s, v)
            &&& vis_covered(s, v, c)
            &&& chain_ends_proper(s, c)
            &&& forall|x: int| 0 <= x < s.len() && !v[x] ==> (#[trigger] s[x]).next is Some
            &&& forall|x: int| 0 <= x < k ==> #[trigger] v[x]
        }),
    decreases k,
{
    lemma_pass(s, false, vis, cs, k);
    if k > 0 {
        lemma_loops_pass(s, vis, cs, k - 1);
        let (v, c) = pass(s, false, vis, cs, k - 1);
        let st = k - 1;
        if v[st] {
        } else {
            lemma_walk_consistent(s, v, st);
            let (v2, ch) = walk(s, v.update(st, true), st, seq![st as usize]);
            assert(ch[ch.len() - 1] == ch.last());
            assert(!v[ch[ch.len() - 1] as int]);
            assert(s[ch.last() as int].next == Some(st as usize));
            let c2 = c.push(ch);
            assert(pass(s, false, vis, cs, k) == (v2, c2));
            lemma_covered_grows(s, v, c, v2, c2, ch);
            assert(chain_ends_proper(s, c2)) by {
                assert forall|a: int| 0 <= a < c2.len() implies {
                    ||| (s[(#[trigger] c2[a])[0] as int].prev is None && s[c2[a].last() as int].next is None)
                    ||| s[c2[a].last() as int].next == Some(c2[a][0])
                } by {
                    if a < c.len() {
                        assert(c2[a] == c[a]);
                    }
                }
            }
            assert forall|x: int| 0 <= x < s.len() && !v2[x] implies (#[trigger] s[x]).next is Some by {
                if v[x] {
                    assert(v2[x]);
                }
            }
            assert forall|x: int| 0 <= x < k implies #[trigger] v2[x] by {
                if x < st {
                    assert(v[x]);
                } else {
                    assert(v2[ch[0] as int]);
                }
            }
        }
    }
}

/// Over consistent links, chain extraction misses no linked point, and each
/// chain is either a whole open path, from a point without predecessor to a
/// point without successor, or a whole closed loop, whose last point has its
/// first point as successor; the chains are well formed.
pub proof fn lemma_chains_cover_links(s: Seq<LinkedIntersectionPoint>)
    requires
        links_consistent(s),
        s.len() <= usize::MAX,
    ensures
        chains_well_formed(s, spec_chains(s)),
        chain_ends_proper(s, spec_chains(s)),
        linked_points_covered(s, spec_chains(s)),
        chains_in_scan_order(s, spec_chains(s)),
{
    reveal(links_agree);
    lemma_consistent_in_range(s);
    let n = s.len() as int;
    let v0 = Seq::new(s.len(), |i: int| false);
    let e = Seq::<Seq<usize>>::empty();
    assert(pass_inv(s, v0, e));
    assert(vis_closed(s, v0));
    assert(vis_covered(s, v0, e));
    assert(chain_ends_proper(s, e));
    lemma_heads_pass(s, v0, e, n);
    lemma_heads_order(s, v0, e, n);
    let first = pass(s, true, v0, e, n);
    lemma_unvisited_have_successors(s, first.0);
    lemma_loops_pass(s, first.0, first.1, n);
    lemma_loops_order(s, first.0, first.1, n);
    let last = pass(s, false, first.0, first.1, n);
    assert(last.1 == spec_chains(s));
    assert forall|x: int| 0 <= x < s.len() && ((#[trigger] s[x]).next is Some || s[x].prev is Some) implies exists|a: int, k: int|
        0 <= a < last.1.len() && 0 <= k < last.1[a].len() && #[trigger] last.1[a][k] as int == x by {
        assert(last.0[x]);
    }
}

/// The chains come in the order of the scans: first the open chains, in the
/// order of their first points, then the closed loops, in the order of their
/// first points; each closed loop starts at its smallest point.
pub open spec fn chains_in_scan_order(s: Seq<LinkedIntersectionPoint>, cs: Seq<Seq<usize>>) -> bool {
    &&& forall|a: int, b: int|
        0 <= a < b < cs.len() ==> {
            &&& s[(#[trigger] cs[b]).last() as int].next is None ==> s[(#[trigger] cs[a]).last() as int].next
                is None
            &&& (s[cs[a].last() as int].next is None) == (s[cs[b].last() as int].next is None) ==> cs[a][0]
                < cs[b][0]
        }
    &&& forall|a: int, k: int|
        0 <= a < cs.len() && 0 <= k < cs[a].len() && s[cs[a].last() as int].next is Some ==> cs[a][0]
            <= #[trigger] cs[a][k]
}

proof fn lemma_heads_order(s: Seq<LinkedIntersectionPoint>, vis: Seq<bool>, cs: Seq<Seq<usize>>, k: int)
    requires
        links_agree(s),
        next_in_range(s),
        s.len() <= usize::MAX,
        0 <= k <= s.len(),
        cs.len() == 0,
        pass_inv(s, vis, cs),
        vis_closed(s, vis),
        vis_covered(s, vis, cs),
    ensures
        ({
            let c = pass(s, true, vis, cs, k).1;
            &&& chains_in_scan_order(s, c)
            &&& forall|a: int|
                0 <= a < c.len() ==> s[(#[trigger] c[a]).last() as int].next is None && (c[a][0] as int) < k
        }),
    decreases k,
{
    if k > 0 {
        lemma_heads_order(s, vis, cs, k - 1);
        assert(chain_ends_proper(s, cs));
        lemma_heads_pass(s, vis, cs, k - 1);
        let (v, c) = pass(s, true, vis, cs, k - 1);
        let st = k - 1;
        if v[st] || s[st].prev is Some {
        } else {
            lemma_walk_consistent(s, v, st);
            let (v2, ch) = walk(s, v.update(st, true), st, seq![st as usize]);
            if ch.len() >= 2 {
                let c2 = c.push(ch);
                assert(pass(s, true, vis, cs, k).1 == c2);
                assert forall|a: int|
                    0 <= a < c2.len() implies s[(#[trigger] c2[a]).last() as int].next is None && (
                c2[a][0] as int) < k by {
                    if a < c.len() {
                        assert(c2[a] == c[a]);
                    }
                }
                assert forall|a: int, b: int| 0 <= a < b < c2.len() implies {
                    &&& s[(#[trigger] c2[b]).last() as int].next is None ==> s[(
                    #[trigger] c2[a]).last() as int].next is None
                    &&& (s[c2[a].last() as int].next is None) == (s[c2[b].last() as int].next is None)
                        ==> c2[a][0] < c2[b][0]
                } by {
                    assert(c2[a] == c[a]);
                    if b < c.len() {
                        assert(c2[b] == c[b]);
                    }
                }
                assert forall|a: int, kk: int|
                    0 <= a < c2.len() && 0 <= kk < c2[a].len() && s[c2[a].last() as int].next
                        is Some implies c2[a][0] <= #[trigger] c2[a][kk] by {
                    if a < c.len() {
                        assert(c2[a] == c[a]);
                    }
                }
            }
        }
    }
}

proof fn lemma_loops_order(s: Seq<LinkedIntersectionPoint>, vis: Seq<bool>, cs: Seq<Seq<usize>>, k: int)
    requires
        links_agree(s),
        next_in_range(s),
        s.len() <= usize::MAX,
        0 <= k <= s.len(),
        pass_inv(s, vis, cs),
        vis_closed(s, vis),
        vis_covered(s, vis, cs),
        chain_ends_proper(s, cs),
        forall|x: int| 0 <= x < s.len() && !vis[x] ==> (#[trigger] s[x]).next is Some,
        chains_in_scan_order(s, cs),
        forall|a: int| 0 <= a < cs.len() ==> s[(#[trigger] cs[a]).last() as int].next is None,
    ensures
        ({
            let c = pass(s, false, vis, cs, k).1;
            &&& chains_in_scan_order(s, c)
            &&& forall|a: int|
                0 <= a < c.len() && s[(#[trigger] c[a]).last() as int].next is Some ==> (c[a][0] as int) < k
        }),
    decreases k,
{
    if k > 0 {
        lemma_loops_order(s, vis, cs, k - 1);
        lemma_loops_pass(s, vis, cs, k - 1);
        let (v, c) = pass(s, false, vis, cs, k - 1);
        let st = k - 1;
        if v[st] {
        } else {
            lemma_walk_consistent(s, v, st);
            let (v2, ch) = walk(s, v.update(st, true), st, seq![st as usize]);
            assert(ch[ch.len() - 1] == ch.last());
            assert(!v[ch[ch.len() - 1] as int]);
            assert(s[ch.last() as int].next == Some(st as usize));
            let c2 = c.push(ch);
            assert(pass(s, false, vis, cs, k).1 == c2);
            assert forall|a: int|
                0 <= a < c2.len() && s[(#[trigger] c2[a]).last() as int].next is Some implies (
            c2[a][0] as int) < k by {
                if a < c.len() {
                    assert(c2[a] == c[a]);
                }
            }
            assert forall|a: int, b: int| 0 <= a < b < c2.len() implies {
                &&& s[(#[trigger] c2[b]).last() as int].next is None ==> s[(#[trigger] c2[a]).last() as int].next
                    is None
                &&& (s[c2[a].last() as int].next is None) == (s[c2[b].last() as int].next is None) ==> c2[a][0]
                    < c2[b][0]
            } by {
                assert(c2[a] == c[a]);
                if b < c.len() {
                    assert(c2[b] == c[b]);
                }
            }
            assert forall|a: int, kk: int|
                0 <= a < c2.len() && 0 <= kk < c2[a].len() && s[c2[a].last() as int].next
                    is Some implies c2[a][0] <= #[trigger] c2[a][kk] by {
                if a < c.len() {
                    assert(c2[a] == c[a]);
                } else {
                    assert(c2[a] == ch);
                    assert(!v[ch[kk] as int]);
                    if (ch[kk] as int) < st {
                        assert(v[ch[kk] as int]);
                    }
                }
            }
        }
    }
}

} // verus!
