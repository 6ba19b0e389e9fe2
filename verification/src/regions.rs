//! Assembly of the regions into which intersection curves split a face.
//!
//! The loops that bound a face in its parameter domain are the loops of the
//! intersection curves, the outer boundary of the face and its holes.
//! Counter-clockwise loops become outlines of regions, ordered by area;
//! clockwise loops become holes and go to the first region whose outline
//! contains them.

use vstd::prelude::*;

verus! {

/// What region assembly reads of one loop in the parameter domain.
#[derive(Clone, Copy, Debug)]
pub struct LoopSummary {
    /// Number of points of the loop.
    pub num_points: usize,
    /// The absolute value of the signed area is below the tolerance.
    pub negligible: bool,
    /// The signed area is above the tolerance (a counter-clockwise loop).
    pub outer: bool,
    /// The signed area is below minus the tolerance (a clockwise loop).
    pub inner: bool,
    /// Orders outer loops as their signed areas are ordered; equal areas
    /// have equal keys.
    pub area_key: u64,
}

/// A region of a split face: the index of its outline loop and the indices of
/// its hole loops, in the order in which they were assigned.
#[derive(Debug)]
pub struct RegionPlan {
    /// Index of the outline loop.
    pub outline: usize,
    /// Indices of the hole loops.
    pub holes: Vec<usize>,
}

/// Loop `l` takes part in the split: every boundary and hole loop does, an
/// intersection-curve loop only with at least three points and a
/// non-negligible area.
pub open spec fn kept(loops: Seq<LoopSummary>, num_curves: int, l: int) -> bool {
    l >= num_curves || (loops[l].num_points >= 3 && !loops[l].negligible)
}

/// The kept loops among `0..k` that are outer, in index order.
pub open spec fn outer_upto(loops: Seq<LoopSummary>, num_curves: int, k: int) -> Seq<usize>
    decreases k,
{
    if k <= 0 {
        Seq::empty()
    } else {
        let r = outer_upto(loops, num_curves, k - 1);
        if kept(loops, num_curves, k - 1) && loops[k - 1].outer {
            r.push((k - 1) as usize)
        } else {
            r
        }
    }
}

/// The kept loops among `0..k` that are not outer but inner, in index order.
pub open spec fn inner_upto(loops: Seq<LoopSummary>, num_curves: int, k: int) -> Seq<usize>
    decreases k,
{
    if k <= 0 {
        Seq::empty()
    } else {
        let r = inner_upto(loops, num_curves, k - 1);
        if kept(loops, num_curves, k - 1) && !loops[k - 1].outer && loops[k - 1].inner {
            r.push((k - 1) as usize)
        } else {
            r
        }
    }
}

/// `a` comes before `b` in the order of outlines: smaller area key first,
/// lower index first among equal keys.
pub open spec fn outline_before(loops: Seq<LoopSummary>, a: usize, b: usize) -> bool {
    loops[a as int].area_key < loops[b as int].area_key || (loops[a as int].area_key
        == loops[b as int].area_key && a < b)
}

/// `order` holds the loops of `outs` sorted by area key, ties kept in index order.
pub open spec fn sorted_outlines(loops: Seq<LoopSummary>, outs: Seq<usize>, order: Seq<usize>) -> bool {
    &&& order.to_multiset() == outs.to_multiset()
    &&& forall|i: int, j: int|
        0 <= i < j < order.len() ==> outline_before(loops, #[trigger] order[i], #[trigger] order[j])
}

/// Among the first `k` regions, in the order `order` of their outlines, the
/// first whose outline contains the first point of loop `h`.
pub open spec fn first_containing(
    order: Seq<usize>,
    inside: Seq<Seq<bool>>,
    h: usize,
    k: int,
) -> Option<int>
    decreases k,
{
    if k <= 0 {
        None
    } else {
        match first_containing(order, inside, h, k - 1) {
            Some(r) => Some(r),
            None => if inside[h as int][order[k - 1] as int] {
                Some(k - 1)
            } else {
                None
            },
        }
    }
}

/// The holes of `hs` that go to region `r`.
pub open spec fn holes_of(order: Seq<usize>, inside: Seq<Seq<bool>>, hs: Seq<usize>, r: int) -> Seq<usize>
    decreases hs.len(),
{
    if hs.len() == 0 {
        Seq::empty()
    } else {
        let prev = holes_of(order, inside, hs.drop_last(), r);
        if first_containing(order, inside, hs.last(), order.len() as int) == Some(r) {
            prev.push(hs.last())
        } else {
            prev
        }
    }
}

/// Every loop in `order` is one of the first `t` loops of `outs`.
pub open spec fn drawn_from(order: Seq<usize>, outs: Seq<usize>, t: int) -> bool {
    forall|i: int|
        #![trigger order[i]]
        0 <= i < order.len() ==> exists|j: int| 0 <= j < t && #[trigger] outs[j] == order[i]
}

/// The indices in `s` increase strictly and each names a loop.
pub open spec fn increasing_indices(s: Seq<usize>, n: int) -> bool {
    &&& forall|i: int, j: int| 0 <= i < j < s.len() ==> #[trigger] s[i] < #[trigger] s[j]
    &&& forall|i: int| 0 <= i < s.len() ==> (#[trigger] s[i] as int) < n
}

proof fn lemma_insert_multiset(s: Seq<usize>, p: int, x: usize)
    requires
        0 <= p <= s.len(),
    ensures
        s.insert(p, x).to_multiset() =~= s.to_multiset().insert(x),
{
    broadcast use vstd::seq_lib::group_to_multiset_ensures;

    let t = s.insert(p, x);
    assert(t.remove(p) =~= s);
    assert(t[p] == x);
    assert(t.remove(p).to_multiset() =~= t.to_multiset().remove(x));
    assert(t.contains(x));
    assert(t.to_multiset().count(x) > 0);
}

/// Sorts the outline loops `outs`, given in increasing index order, by area
/// key; loops with equal keys keep their index order.
pub fn sort_outlines(loops: &Vec<LoopSummary>, outs: &Vec<usize>) -> (order: Vec<usize>)
    requires
        increasing_indices(outs@, loops@.len() as int),
    ensures
        sorted_outlines(loops@, outs@, order@),
{
    broadcast use vstd::seq_lib::group_to_multiset_ensures;

    let mut order: Vec<usize> = Vec::new();
    let mut t: usize = 0;
    assert(outs@.take(0) =~= Seq::<usize>::empty());
    while t < outs.len()
        invariant
            0 <= t <= outs@.len(),
            increasing_indices(outs@, loops@.len() as int),
            sorted_outlines(loops@, outs@.take(t as int), order@),
            drawn_from(order@, outs@, t as int),
        decreases outs@.len() - t,
    {
        let x: usize = outs[t];
        let kx: u64 = loops[x].area_key;
        let mut q: usize = 0;
        while q < order.len() && loops[order[q]].area_key <= kx
            invariant
                0 <= q <= order@.len(),
                sorted_outlines(loops@, outs@.take(t as int), order@),
                increasing_indices(outs@, loops@.len() as int),
                t < outs@.len(),
                x == outs@[t as int],
                kx == loops@[x as int].area_key,
                drawn_from(order@, outs@, t as int),
                forall|i: int| 0 <= i < q ==> loops@[#[trigger] order@[i] as int].area_key <= kx,
            decreases order@.len() - q,
        {
            assert(exists|j: int| 0 <= j < t && #[trigger] outs@[j] == order@[q as int]);
            assert(order@[q as int] < loops@.len());
            q = q + 1;
        }
        let ghost old_order = order@;
        proof {
            // every loop placed so far comes before `x` in index order
            assert forall|i: int| 0 <= i < old_order.len() implies #[trigger] old_order[i] < x by {
                let j = choose|j: int| 0 <= j < t && #[trigger] outs@[j] == old_order[i];
                assert(outs@[j] < outs@[t as int]);
            }
            // every loop placed from `q` on has a larger key than `x`
            assert forall|i: int| q <= i < old_order.len() implies loops@[#[trigger] old_order[i] as int].area_key > kx by {
                if i > q {
                    assert(outline_before(loops@, old_order[q as int], old_order[i]));
                }
            }
        }
        order.insert(q, x);
        proof {
            lemma_insert_multiset(old_order, q as int, x);
            assert(order@ == old_order.insert(q as int, x));
            assert(outs@.take(t + 1) =~= outs@.take(t as int).push(x));
            vstd::seq_lib::to_multiset_build(outs@.take(t as int), x);
            assert(order@.to_multiset() =~= outs@.take(t + 1).to_multiset());
            let o = order@;
            assert forall|i: int, j: int| 0 <= i < j < o.len() implies outline_before(
                loops@,
                #[trigger] o[i],
                #[trigger] o[j],
            ) by {
                if j < q {
                    assert(o[i] == old_order[i] && o[j] == old_order[j]);
                } else if j == q {
                    assert(o[i] == old_order[i]);
                } else if i == q {
                    assert(o[j] == old_order[j - 1]);
                } else if i < q {
                    assert(o[i] == old_order[i] && o[j] == old_order[j - 1]);
                } else {
                    assert(o[i] == old_order[i - 1] && o[j] == old_order[j - 1]);
                }
            }
            assert forall|i: int| #![trigger o[i]] 0 <= i < o.len() implies exists|j: int|
                0 <= j < t + 1 && #[trigger] outs@[j] == o[i] by {
                if i < q {
                    assert(o[i] == old_order[i]);
                    let j = choose|j: int| 0 <= j < t && #[trigger] outs@[j] == old_order[i];
                    assert(outs@[j] == o[i]);
                } else if i == q {
                    assert(outs@[t as int] == o[i]);
                } else {
                    assert(o[i] == old_order[i - 1]);
                    let j = choose|j: int| 0 <= j < t && #[trigger] outs@[j] == old_order[i - 1];
                    assert(outs@[j] == o[i]);
                }
            }
        }
        t = t + 1;
    }
    assert(outs@.take(outs@.len() as int) =~= outs@);
    order
}

proof fn lemma_first_containing_found(order: Seq<usize>, inside: Seq<Seq<bool>>, h: usize, k: int, m: int)
    requires
        0 <= k < m,
        first_containing(order, inside, h, k) is None,
        inside[h as int][order[k] as int],
    ensures
        first_containing(order, inside, h, m) == Some(k),
    decreases m,
{
    if m > k + 1 {
        lemma_first_containing_found(order, inside, h, k, m - 1);
    }
}

proof fn lemma_upto_props(loops: Seq<LoopSummary>, num_curves: int, k: int)
    requires
        0 <= k <= loops.len() <= usize::MAX,
    ensures
        increasing_indices(outer_upto(loops, num_curves, k), loops.len() as int),
        forall|i: int|
            0 <= i < outer_upto(loops, num_curves, k).len() ==> (#[trigger] outer_upto(loops, num_curves, k)[i] as int) < k,
        increasing_indices(inner_upto(loops, num_curves, k), loops.len() as int),
        forall|i: int|
            0 <= i < inner_upto(loops, num_curves, k).len() ==> (#[trigger] inner_upto(loops, num_curves, k)[i] as int) < k,
    decreases k,
{
    if k > 0 {
        lemma_upto_props(loops, num_curves, k - 1);
    }
}

/// The regions into which the loops of a face split it.
///
/// `loops` holds the loops of the `num_curves` intersection curves, then the
/// outer boundary of the face, then its holes. `inside[h][o]` tells whether
/// the first point of loop `h` lies inside loop `o`.
///
/// Without intersection curves the face is one region: the boundary with all
/// holes. Otherwise the kept outer loops become outlines, sorted by area key
/// (ties in index order), and each kept inner loop goes, in index order, to
/// the first region whose outline contains it; a hole that no outline
/// contains is dropped.
pub fn plan_split_regions(
    loops: &Vec<LoopSummary>,
    num_curves: usize,
    inside: &Vec<Vec<bool>>,
) -> (regions: Vec<RegionPlan>)
    requires
        num_curves < loops@.len(),
        inside@.len() == loops@.len(),
        forall|i: int| 0 <= i < inside@.len() ==> (#[trigger] inside@[i])@.len() == loops@.len(),
    ensures
        num_curves == 0 ==> {
            &&& regions@.len() == 1
            &&& regions@[0].outline == 0
            &&& regions@[0].holes@ == Seq::new((loops@.len() - 1) as nat, |i: int| (i + 1) as usize)
        },
        num_curves > 0 ==> {
            let order = regions@.map_values(|r: RegionPlan| r.outline);
            let n = loops@.len() as int;
            &&& sorted_outlines(loops@, outer_upto(loops@, num_curves as int, n), order)
            &&& forall|r: int|
                0 <= r < regions@.len() ==> (#[trigger] regions@[r]).holes@ == holes_of(
                    order,
                    inside@.map_values(|row: Vec<bool>| row@),
                    inner_upto(loops@, num_curves as int, n),
                    r,
                )
        },
        num_curves > 0 ==> forall|r: int|
            0 <= r < regions@.len() ==> {
                let o = (#[trigger] regions@[r]).outline as int;
                &&& o < loops@.len()
                &&& loops@[o].outer
                &&& (o >= num_curves || (loops@[o].num_points >= 3 && !loops@[o].negligible))
            },
        num_curves > 0 ==> forall|l: int|
            0 <= l < loops@.len() && (#[trigger] loops@[l]).outer && (l >= num_curves || (
            loops@[l].num_points >= 3 && !loops@[l].negligible)) ==> exists|r: int|
                0 <= r < regions@.len() && (#[trigger] regions@[r]).outline == l,
        num_curves > 0 ==> forall|r1: int, r2: int|
            0 <= r1 < r2 < regions@.len() ==> {
                ||| loops@[(#[trigger] regions@[r1]).outline as int].area_key < loops@[(
                #[trigger] regions@[r2]).outline as int].area_key
                ||| (loops@[regions@[r1].outline as int].area_key == loops@[regions@[r2].outline as int].area_key
                    && regions@[r1].outline < regions@[r2].outline)
            },
        num_curves > 0 ==> forall|r: int, i: int, j: int|
            0 <= r < regions@.len() && 0 <= i < j < regions@[r].holes@.len() ==> #[trigger] regions@[r].holes@[i]
                < #[trigger] regions@[r].holes@[j],
        num_curves > 0 ==> forall|r: int, i: int|
            0 <= r < regions@.len() && 0 <= i < regions@[r].holes@.len() ==> {
                let h = #[trigger] regions@[r].holes@[i] as int;
                &&& h < loops@.len()
                &&& loops@[h].inner
                &&& !loops@[h].outer
                &&& (h >= num_curves || (loops@[h].num_points >= 3 && !loops@[h].negligible))
                &&& inside@[h]@[regions@[r].outline as int]
                &&& forall|q: int| 0 <= q < r ==> !inside@[h]@[#[trigger] regions@[q].outline as int]
            },
        num_curves > 0 ==> forall|r: int, h: int|
            #![trigger inside@[h]@[regions@[r].outline as int]]
            0 <= r < regions@.len() && 0 <= h < loops@.len() && loops@[h].inner && !loops@[h].outer && (h
                >= num_curves || (loops@[h].num_points >= 3 && !loops@[h].negligible))
                && inside@[h]@[regions@[r].outline as int] && (forall|q: int|
                0 <= q < r ==> !inside@[h]@[#[trigger] regions@[q].outline as int]) ==> regions@[r].holes@.contains(
                h as usize,
            ),
{
    let n: usize = loops.len();
    if num_curves == 0 {
        let mut holes: Vec<usize> = Vec::new();
        let mut l: usize = 1;
        while l < n
            invariant
                1 <= l <= n,
                holes@ == Seq::new((l - 1) as nat, |i: int| (i + 1) as usize),
            decreases n - l,
        {
            holes.push(l);
            l = l + 1;
            assert(holes@ =~= Seq::new((l - 1) as nat, |i: int| (i + 1) as usize));
        }
        let mut regions: Vec<RegionPlan> = Vec::new();
        regions.push(RegionPlan { outline: 0, holes });
        return regions;
    }
    let ghost lv = loops@;
    let ghost nc = num_curves as int;
    let ghost iv = inside@.map_values(|row: Vec<bool>| row@);
    // collect the kept outer and inner loops
    let mut outs: Vec<usize> = Vec::new();
    let mut hs: Vec<usize> = Vec::new();
    let mut l: usize = 0;
    while l < n
        invariant
            0 <= l <= n,
            n == lv.len(),
            lv == loops@,
            nc == num_curves as int,
            outs@ == outer_upto(lv, nc, l as int),
            hs@ == inner_upto(lv, nc, l as int),
        decreases n - l,
    {
        let lp = loops[l];
        let keep = l >= num_curves || (lp.num_points >= 3 && !lp.negligible);
        if keep && lp.outer {
            outs.push(l);
        } else if keep && lp.inner {
            hs.push(l);
        }
        l = l + 1;
    }
    proof {
        lemma_upto_props(lv, nc, n as int);
    }
    let order = sort_outlines(loops, &outs);
    let ghost ov = order@;
    let mut regions: Vec<RegionPlan> = Vec::new();
    let mut r: usize = 0;
    while r < order.len()
        invariant
            0 <= r <= ov.len(),
            ov == order@,
            regions@.len() == r,
            forall|q: int| 0 <= q < r ==> (#[trigger] regions@[q]).outline == ov[q],
            forall|q: int| 0 <= q < r ==> (#[trigger] regions@[q]).holes@ == Seq::<usize>::empty(),
        decreases ov.len() - r,
    {
        regions.push(RegionPlan { outline: order[r], holes: Vec::new() });
        r = r + 1;
    }
    proof {
        // every outline names a loop
        assert forall|q: int| 0 <= q < ov.len() implies (#[trigger] ov[q] as int) < n by {
            broadcast use vstd::seq_lib::group_to_multiset_ensures;

            assert(ov.to_multiset().count(ov[q]) > 0);
            assert(outs@.contains(ov[q]));
        }
    }
    let mut t: usize = 0;
    while t < hs.len()
        invariant
            0 <= t <= hs@.len(),
            ov == order@,
            n == lv.len(),
            lv == loops@,
            iv == inside@.map_values(|row: Vec<bool>| row@),
            inside@.len() == n,
            forall|i: int| 0 <= i < inside@.len() ==> (#[trigger] inside@[i])@.len() == n,
            forall|q: int| 0 <= q < ov.len() ==> (#[trigger] ov[q] as int) < n,
            hs@ == inner_upto(lv, nc, n as int),
            forall|i: int| 0 <= i < hs@.len() ==> (#[trigger] hs@[i] as int) < n,
            regions@.len() == ov.len(),
            forall|q: int| 0 <= q < regions@.len() ==> (#[trigger] regions@[q]).outline == ov[q],
            forall|q: int|
                0 <= q < regions@.len() ==> (#[trigger] regions@[q]).holes@ == holes_of(
                    ov,
                    iv,
                    hs@.take(t as int),
                    q,
                ),
        decreases hs@.len() - t,
    {
        let h: usize = hs[t];
        let mut q: usize = 0;
        proof {
            assert(iv[h as int] == inside@[h as int]@);
        }
        while q < regions.len() && !inside[h][regions[q].outline]
            invariant
                0 <= q <= regions@.len(),
                regions@.len() == ov.len(),
                forall|p: int| 0 <= p < regions@.len() ==> (#[trigger] regions@[p]).outline == ov[p],
                forall|p: int| 0 <= p < ov.len() ==> (#[trigger] ov[p] as int) < n,
                inside@.len() == n,
                forall|i: int| 0 <= i < inside@.len() ==> (#[trigger] inside@[i])@.len() == n,
                (h as int) < n,
                iv == inside@.map_values(|row: Vec<bool>| row@),
                iv[h as int] == inside@[h as int]@,
                first_containing(ov, iv, h, q as int) is None,
            decreases regions@.len() - q,
        {
            q = q + 1;
        }
        let found: Option<usize> = if q < regions.len() {
            proof {
                lemma_first_containing_found(ov, iv, h, q as int, ov.len() as int);
            }
            Some(q)
        } else {
            None
        };
        let ghost before = regions@;
        proof {
            assert(hs@.take(t + 1).drop_last() =~= hs@.take(t as int));
            assert(hs@.take(t + 1).last() == h);
        }
        match found {
            Some(f) => {
                let mut reg = regions.remove(f);
                reg.holes.push(h);
                regions.insert(f, reg);
                proof {
                    assert forall|p: int| 0 <= p < regions@.len() implies (#[trigger] regions@[p]).holes@
                        == holes_of(ov, iv, hs@.take(t + 1), p) by {
                        if p != f {
                            assert(regions@[p] == before[p]);
                        }
                    }
                    assert forall|p: int| 0 <= p < regions@.len() implies (#[trigger] regions@[p]).outline
                        == ov[p] by {
                        if p != f {
                            assert(regions@[p] == before[p]);
                        }
                    }
                }
            },
            None => {
                proof {
                    assert(first_containing(ov, iv, h, ov.len() as int) is None);
                }
            },
        }
        t = t + 1;
    }
    proof {
        assert(hs@.take(hs@.len() as int) =~= hs@);
        assert(regions@.map_values(|r: RegionPlan| r.outline) =~= ov);
        lemma_outlines_exact(lv, nc, ov);
        assert forall|r: int| 0 <= r < regions@.len() implies {
            let o = (#[trigger] regions@[r]).outline as int;
            &&& o < loops@.len()
            &&& loops@[o].outer
            &&& (o >= num_curves || (loops@[o].num_points >= 3 && !loops@[o].negligible))
        } by {
            assert(regions@[r].outline == ov[r]);
        }
        assert forall|l: int|
            0 <= l < loops@.len() && (#[trigger] loops@[l]).outer && (l >= num_curves || (
            loops@[l].num_points >= 3 && !loops@[l].negligible)) implies exists|r: int|
                0 <= r < regions@.len() && (#[trigger] regions@[r]).outline == l by {
            assert(lv[l] == loops@[l]);
            assert(ov.contains(l as usize));
            let r = choose|r: int| 0 <= r < ov.len() && ov[r] == l as usize;
            assert(regions@[r].outline == ov[r]);
        }
        assert forall|r1: int, r2: int| 0 <= r1 < r2 < regions@.len() implies {
            ||| loops@[(#[trigger] regions@[r1]).outline as int].area_key < loops@[(
            #[trigger] regions@[r2]).outline as int].area_key
            ||| (loops@[regions@[r1].outline as int].area_key == loops@[regions@[r2].outline as int].area_key
                && regions@[r1].outline < regions@[r2].outline)
        } by {
            assert(regions@[r1].outline == ov[r1]);
            assert(regions@[r2].outline == ov[r2]);
        }
        assert forall|r: int, i: int, j: int|
            0 <= r < regions@.len() && 0 <= i < j < regions@[r].holes@.len() implies #[trigger] regions@[r].holes@[i]
                < #[trigger] regions@[r].holes@[j] by {
            lemma_region_holes(lv, nc, ov, iv, r);
        }
        assert forall|r: int, i: int|
            0 <= r < regions@.len() && 0 <= i < regions@[r].holes@.len() implies {
                let h = #[trigger] regions@[r].holes@[i] as int;
                &&& h < loops@.len()
                &&& loops@[h].inner
                &&& !loops@[h].outer
                &&& (h >= num_curves || (loops@[h].num_points >= 3 && !loops@[h].negligible))
                &&& inside@[h]@[regions@[r].outline as int]
                &&& forall|q: int| 0 <= q < r ==> !inside@[h]@[#[trigger] regions@[q].outline as int]
            } by {
            lemma_region_holes(lv, nc, ov, iv, r);
            let h = regions@[r].holes@[i] as int;
            assert(iv[h] == inside@[h]@);
            assert forall|q: int| 0 <= q < r implies !inside@[h]@[#[trigger] regions@[q].outline as int] by {
                assert(regions@[q].outline == ov[q]);
            }
        }
        assert forall|r: int, h: int|
            #![trigger inside@[h]@[regions@[r].outline as int]]
            0 <= r < regions@.len() && 0 <= h < loops@.len() && loops@[h].inner && !loops@[h].outer && (h
                >= num_curves || (loops@[h].num_points >= 3 && !loops@[h].negligible))
                && inside@[h]@[regions@[r].outline as int] && (forall|q: int|
                0 <= q < r ==> !inside@[h]@[#[trigger] regions@[q].outline as int]) implies regions@[r].holes@.contains(
                h as usize,
            ) by {
            lemma_region_holes(lv, nc, ov, iv, r);
            assert(iv[h] == inside@[h]@);
            assert forall|q: int| 0 <= q < r implies !iv[h][#[trigger] ov[q] as int] by {
                assert(regions@[q].outline == ov[q]);
            }
            assert(lv[h] == loops@[h]);
        }
    }
    regions
}

/// The first region whose outline contains `h` is the region of smallest
/// index among `0..k` whose outline contains it; none when no outline of
/// `0..k` contains it.
pub proof fn lemma_first_containing_is_first(order: Seq<usize>, inside: Seq<Seq<bool>>, h: usize, k: int)
    requires
        0 <= k,
    ensures
        match first_containing(order, inside, h, k) {
            Some(r) => 0 <= r < k && inside[h as int][order[r] as int] && forall|q: int|
                0 <= q < r ==> !inside[h as int][#[trigger] order[q] as int],
            None => forall|q: int| 0 <= q < k ==> !inside[h as int][#[trigger] order[q] as int],
        },
    decreases k,
{
    if k > 0 {
        lemma_first_containing_is_first(order, inside, h, k - 1);
    }
}

/// A loop goes to region `r` exactly when it is one of the holes and the
/// first outline that contains it is that of region `r`.
pub proof fn lemma_holes_of_member(order: Seq<usize>, inside: Seq<Seq<bool>>, hs: Seq<usize>, r: int, x: usize)
    ensures
        holes_of(order, inside, hs, r).contains(x) <==> (hs.contains(x) && first_containing(
            order,
            inside,
            x,
            order.len() as int,
        ) == Some(r)),
    decreases hs.len(),
{
    if hs.len() > 0 {
        let pre = hs.drop_last();
        lemma_holes_of_member(order, inside, pre, r, x);
        let prev = holes_of(order, inside, pre, r);
        let cur = holes_of(order, inside, hs, r);
        let last_here = first_containing(order, inside, hs.last(), order.len() as int) == Some(r);
        let fx = first_containing(order, inside, x, order.len() as int) == Some(r);
        if cur.contains(x) {
            let k = choose|k: int| 0 <= k < cur.len() && cur[k] == x;
            if last_here && k == prev.len() {
                assert(hs[hs.len() - 1] == x);
                assert(hs.contains(x));
            } else {
                assert(prev[k] == x);
                assert(prev.contains(x));
                let j = choose|j: int| 0 <= j < pre.len() && pre[j] == x;
                assert(hs[j] == pre[j]);
                assert(hs.contains(x));
            }
        }
        if hs.contains(x) && fx {
            let j = choose|j: int| 0 <= j < hs.len() && hs[j] == x;
            if j < pre.len() {
                assert(pre[j] == hs[j]);
                assert(pre.contains(x));
                let k = choose|k: int| 0 <= k < prev.len() && prev[k] == x;
                assert(cur[k] == prev[k]);
                assert(cur.contains(x));
            } else {
                assert(cur[cur.len() - 1] == x);
                assert(cur.contains(x));
            }
        }
    }
}

/// A hole that a region receives lies inside the region's outline and inside
/// no outline of an earlier region.
pub proof fn lemma_hole_lies_in_first_containing_outline(
    order: Seq<usize>,
    inside: Seq<Seq<bool>>,
    hs: Seq<usize>,
    r: int,
    h: usize,
)
    requires
        holes_of(order, inside, hs, r).contains(h),
    ensures
        0 <= r < order.len(),
        inside[h as int][order[r] as int],
        forall|q: int| 0 <= q < r ==> !inside[h as int][#[trigger] order[q] as int],
{
    lemma_holes_of_member(order, inside, hs, r, h);
    lemma_first_containing_is_first(order, inside, h, order.len() as int);
}

/// No hole goes to two regions.
pub proof fn lemma_hole_in_at_most_one_region(
    order: Seq<usize>,
    inside: Seq<Seq<bool>>,
    hs: Seq<usize>,
    r1: int,
    r2: int,
    h: usize,
)
    requires
        r1 != r2,
    ensures
        !(holes_of(order, inside, hs, r1).contains(h) && holes_of(order, inside, hs, r2).contains(h)),
{
    lemma_holes_of_member(order, inside, hs, r1, h);
    lemma_holes_of_member(order, inside, hs, r2, h);
}

/// A hole that lies inside some outline is not lost: it goes to a region.
pub proof fn lemma_contained_hole_is_kept(
    order: Seq<usize>,
    inside: Seq<Seq<bool>>,
    hs: Seq<usize>,
    h: usize,
    q: int,
)
    requires
        hs.contains(h),
        0 <= q < order.len(),
        inside[h as int][order[q] as int],
    ensures
        exists|r: int| 0 <= r < order.len() && #[trigger] holes_of(order, inside, hs, r).contains(h),
{
    lemma_first_containing_is_first(order, inside, h, order.len() as int);
    let r = first_containing(order, inside, h, order.len() as int)->0;
    lemma_holes_of_member(order, inside, hs, r, h);
    assert(holes_of(order, inside, hs, r).contains(h));
}

proof fn lemma_upto_members(loops: Seq<LoopSummary>, num_curves: int, k: int, x: usize)
    requires
        k <= loops.len() <= usize::MAX,
    ensures
        outer_upto(loops, num_curves, k).contains(x) ==> loops[x as int].outer,
        inner_upto(loops, num_curves, k).contains(x) ==> !loops[x as int].outer,
    decreases k,
{
    if k > 0 {
        lemma_upto_members(loops, num_curves, k - 1, x);
        let o = outer_upto(loops, num_curves, k);
        let op = outer_upto(loops, num_curves, k - 1);
        if o.contains(x) {
            let i = choose|i: int| 0 <= i < o.len() && o[i] == x;
            if i < op.len() {
                assert(op[i] == x);
            }
        }
        let h = inner_upto(loops, num_curves, k);
        let hp = inner_upto(loops, num_curves, k - 1);
        if h.contains(x) {
            let i = choose|i: int| 0 <= i < h.len() && h[i] == x;
            if i < hp.len() {
                assert(hp[i] == x);
            }
        }
    }
}

/// Each loop bounds at most one region, and only once: the outlines are
/// distinct, and no outline is also a hole of some region.
pub proof fn lemma_each_loop_used_once(
    loops: Seq<LoopSummary>,
    num_curves: int,
    order: Seq<usize>,
    inside: Seq<Seq<bool>>,
    r: int,
    x: usize,
)
    requires
        loops.len() <= usize::MAX,
        sorted_outlines(loops, outer_upto(loops, num_curves, loops.len() as int), order),
    ensures
        forall|i: int, j: int| 0 <= i < j < order.len() ==> #[trigger] order[i] != #[trigger] order[j],
        !(order.contains(x) && holes_of(
            order,
            inside,
            inner_upto(loops, num_curves, loops.len() as int),
            r,
        ).contains(x)),
{
    broadcast use vstd::seq_lib::group_to_multiset_ensures;

    let n = loops.len() as int;
    assert forall|i: int, j: int| 0 <= i < j < order.len() implies #[trigger] order[i] != #[trigger] order[j] by {
        assert(outline_before(loops, order[i], order[j]));
    }
    if order.contains(x) {
        let outs = outer_upto(loops, num_curves, n);
        assert(order.to_multiset().count(x) > 0);
        assert(outs.to_multiset().count(x) > 0);
        assert(outs.contains(x));
        lemma_upto_members(loops, num_curves, n, x);
        lemma_holes_of_member(order, inside, inner_upto(loops, num_curves, n), r, x);
    }
}

proof fn lemma_inner_upto_exact(loops: Seq<LoopSummary>, num_curves: int, k: int)
    requires
        0 <= k <= loops.len() <= usize::MAX,
    ensures
        forall|x: int|
            0 <= x < loops.len() ==> (#[trigger] inner_upto(loops, num_curves, k).contains(x as usize) <==> (
            x < k && kept(loops, num_curves, x) && !loops[x].outer && loops[x].inner)),
    decreases k,
{
    if k > 0 {
        lemma_inner_upto_exact(loops, num_curves, k - 1);
        lemma_upto_props(loops, num_curves, k - 1);
        let r = inner_upto(loops, num_curves, k - 1);
        let h = inner_upto(loops, num_curves, k);
        assert forall|x: int| 0 <= x < loops.len() implies (#[trigger] h.contains(x as usize) <==> (x < k
            && kept(loops, num_curves, x) && !loops[x].outer && loops[x].inner)) by {
            if h.contains(x as usize) {
                let i = choose|i: int| 0 <= i < h.len() && h[i] == x as usize;
                if i < r.len() {
                    assert(r[i] == x as usize);
                    assert(r.contains(x as usize));
                }
            }
            if x < k && kept(loops, num_curves, x) && !loops[x].outer && loops[x].inner {
                if x < k - 1 {
                    assert(r.contains(x as usize));
                    let i = choose|i: int| 0 <= i < r.len() && r[i] == x as usize;
                    assert(h[i] == x as usize);
                } else {
                    assert(h[h.len() - 1] == x as usize);
                }
            }
        }
    }
}

proof fn lemma_holes_of_increasing(order: Seq<usize>, inside: Seq<Seq<bool>>, hs: Seq<usize>, r: int)
    requires
        forall|i: int, j: int| 0 <= i < j < hs.len() ==> #[trigger] hs[i] < #[trigger] hs[j],
    ensures
        forall|i: int, j: int|
            0 <= i < j < holes_of(order, inside, hs, r).len() ==> #[trigger] holes_of(
                order,
                inside,
                hs,
                r,
            )[i] < #[trigger] holes_of(order, inside, hs, r)[j],
    decreases hs.len(),
{
    if hs.len() > 0 {
        let pre = hs.drop_last();
        lemma_holes_of_increasing(order, inside, pre, r);
        let p = holes_of(order, inside, pre, r);
        let q = holes_of(order, inside, hs, r);
        assert forall|i: int, j: int| 0 <= i < j < q.len() implies #[trigger] q[i] < #[trigger] q[j] by {
            if j >= p.len() {
                lemma_holes_of_member(order, inside, pre, r, p[i]);
                assert(p.contains(p[i]));
                let m = choose|m: int| 0 <= m < pre.len() && pre[m] == p[i];
                assert(hs[m] < hs[hs.len() - 1]);
            } else {
                assert(q[i] == p[i] && q[j] == p[j]);
            }
        }
    }
}

/// The holes of a region are exactly the kept clockwise loops whose first
/// point lies inside the region's outline and inside no outline of an earlier
/// region, each once and in increasing index order.
pub proof fn lemma_region_holes(
    loops: Seq<LoopSummary>,
    num_curves: int,
    order: Seq<usize>,
    inside: Seq<Seq<bool>>,
    r: int,
)
    requires
        loops.len() <= usize::MAX,
        0 <= r < order.len(),
    ensures
        ({
            let hs = holes_of(order, inside, inner_upto(loops, num_curves, loops.len() as int), r);
            &&& forall|i: int, j: int| 0 <= i < j < hs.len() ==> #[trigger] hs[i] < #[trigger] hs[j]
            &&& forall|i: int|
                0 <= i < hs.len() ==> {
                    let h = #[trigger] hs[i] as int;
                    &&& h < loops.len()
                    &&& loops[h].inner
                    &&& !loops[h].outer
                    &&& (h >= num_curves || (loops[h].num_points >= 3 && !loops[h].negligible))
                    &&& inside[h][order[r] as int]
                    &&& forall|q: int| 0 <= q < r ==> !inside[h][#[trigger] order[q] as int]
                }
            &&& forall|h: int|
                0 <= h < loops.len() && (#[trigger] loops[h]).inner && !loops[h].outer && (h
                    >= num_curves || (loops[h].num_points >= 3 && !loops[h].negligible))
                    && inside[h][order[r] as int] && (forall|q: int|
                    0 <= q < r ==> !inside[h][#[trigger] order[q] as int]) ==> hs.contains(h as usize)
        }),
{
    let n = loops.len() as int;
    let all = inner_upto(loops, num_curves, n);
    let hs = holes_of(order, inside, all, r);
    lemma_upto_props(loops, num_curves, n);
    lemma_inner_upto_exact(loops, num_curves, n);
    lemma_holes_of_increasing(order, inside, all, r);
    assert forall|i: int| 0 <= i < hs.len() implies {
        let h = #[trigger] hs[i] as int;
        &&& h < loops.len()
        &&& loops[h].inner
        &&& !loops[h].outer
        &&& (h >= num_curves || (loops[h].num_points >= 3 && !loops[h].negligible))
        &&& inside[h][order[r] as int]
        &&& forall|q: int| 0 <= q < r ==> !inside[h][#[trigger] order[q] as int]
    } by {
        let x = hs[i];
        assert(hs.contains(x));
        lemma_holes_of_member(order, inside, all, r, x);
        let m = choose|m: int| 0 <= m < all.len() && all[m] == x;
        assert((all[m] as int) < n);
        assert(all.contains(x as int as usize));
        lemma_first_containing_is_first(order, inside, x, order.len() as int);
    }
    assert forall|h: int|
        0 <= h < loops.len() && (#[trigger] loops[h]).inner && !loops[h].outer && (h >= num_curves || (
        loops[h].num_points >= 3 && !loops[h].negligible)) && inside[h][order[r] as int] && (forall|q: int|
            0 <= q < r ==> !inside[h][#[trigger] order[q] as int]) implies hs.contains(h as usize) by {
        assert(all.contains(h as usize));
        lemma_first_containing_is_first(order, inside, h as usize, order.len() as int);
        let fc = first_containing(order, inside, h as usize, order.len() as int);
        if fc is None {
            assert(!inside[h][order[r] as int]);
        } else {
            let r2 = fc->0;
            if r2 < r {
                assert(!inside[h][order[r2] as int]);
            } else if r2 > r {
                assert(!inside[h][order[r] as int]);
            }
        }
        lemma_holes_of_member(order, inside, all, r, h as usize);
    }
}

proof fn lemma_outer_upto_exact(loops: Seq<LoopSummary>, num_curves: int, k: int)
    requires
        0 <= k <= loops.len() <= usize::MAX,
    ensures
        forall|x: int|
            0 <= x < loops.len() ==> (#[trigger] outer_upto(loops, num_curves, k).contains(x as usize) <==> (
            x < k && kept(loops, num_curves, x) && loops[x].outer)),
    decreases k,
{
    if k > 0 {
        lemma_outer_upto_exact(loops, num_curves, k - 1);
        lemma_upto_props(loops, num_curves, k - 1);
        let r = outer_upto(loops, num_curves, k - 1);
        let h = outer_upto(loops, num_curves, k);
        assert forall|x: int| 0 <= x < loops.len() implies (#[trigger] h.contains(x as usize) <==> (x < k
            && kept(loops, num_curves, x) && loops[x].outer)) by {
            if h.contains(x as usize) {
                let i = choose|i: int| 0 <= i < h.len() && h[i] == x as usize;
                if i < r.len() {
                    assert(r[i] == x as usize);
                    assert(r.contains(x as usize));
                }
            }
            if x < k && kept(loops, num_curves, x) && loops[x].outer {
                if x < k - 1 {
                    assert(r.contains(x as usize));
                    let i = choose|i: int| 0 <= i < r.len() && r[i] == x as usize;
                    assert(h[i] == x as usize);
                } else {
                    assert(h[h.len() - 1] == x as usize);
                }
            }
        }
    }
}

/// The outlines are exactly the kept counter-clockwise loops, each once,
/// ordered by area key with ties in index order.
pub proof fn lemma_outlines_exact(loops: Seq<LoopSummary>, num_curves: int, order: Seq<usize>)
    requires
        loops.len() <= usize::MAX,
        sorted_outlines(loops, outer_upto(loops, num_curves, loops.len() as int), order),
    ensures
        forall|r: int|
            0 <= r < order.len() ==> {
                let o = #[trigger] order[r] as int;
                &&& o < loops.len()
                &&& loops[o].outer
                &&& (o >= num_curves || (loops[o].num_points >= 3 && !loops[o].negligible))
            },
        forall|l: int|
            0 <= l < loops.len() && (#[trigger] loops[l]).outer && (l >= num_curves || (loops[l].num_points
                >= 3 && !loops[l].negligible)) ==> order.contains(l as usize),
        forall|r1: int, r2: int|
            0 <= r1 < r2 < order.len() ==> {
                ||| loops[#[trigger] order[r1] as int].area_key < loops[#[trigger] order[r2] as int].area_key
                ||| (loops[order[r1] as int].area_key == loops[order[r2] as int].area_key && order[r1]
                    < order[r2])
            },
{
    broadcast use vstd::seq_lib::group_to_multiset_ensures;

    let n = loops.len() as int;
    let outs = outer_upto(loops, num_curves, n);
    lemma_upto_props(loops, num_curves, n);
    lemma_outer_upto_exact(loops, num_curves, n);
    assert forall|r: int| 0 <= r < order.len() implies {
        let o = #[trigger] order[r] as int;
        &&& o < loops.len()
        &&& loops[o].outer
        &&& (o >= num_curves || (loops[o].num_points >= 3 && !loops[o].negligible))
    } by {
        let x = order[r];
        assert(order.to_multiset().count(x) > 0);
        assert(outs.contains(x));
        let m = choose|m: int| 0 <= m < outs.len() && outs[m] == x;
        assert((outs[m] as int) < n);
        assert(outs.contains(x as int as usize));
    }
    assert forall|l: int|
        0 <= l < loops.len() && (#[trigger] loops[l]).outer && (l >= num_curves || (loops[l].num_points
            >= 3 && !loops[l].negligible)) implies order.contains(l as usize) by {
        assert(outs.contains(l as usize));
        assert(outs.to_multiset().count(l as usize) > 0);
    }
    assert forall|r1: int, r2: int| 0 <= r1 < r2 < order.len() implies {
        ||| loops[#[trigger] order[r1] as int].area_key < loops[#[trigger] order[r2] as int].area_key
        ||| (loops[order[r1] as int].area_key == loops[order[r2] as int].area_key && order[r1] < order[r2])
    } by {
        assert(outline_before(loops, order[r1], order[r2]));
    }
}

} // verus!
