//! The decoder: turns a chromosome into a concrete packing.

use vstd::prelude::*;

use crate::geom;
use crate::geom::{max2, min2, point3, prune, Cuboid, Point, RotationType, Space};

verus! {

/// A chromosome: `2 * n` keys, each read as the fraction `key / 2^32` of the unit interval.
/// The first half orders the items, the second half picks their orientations.
pub type Chromosome = Vec<u32>;

/// The whole interior of a bin of size `spec`, anchored at the origin.
pub open spec fn bin_space(spec: Cuboid) -> Space {
    Space::placed(point3(0, 0, 0), spec)
}

/// The size of `s` as a cuboid (width along `x`, height along `y`, depth along `z`).
pub open spec fn extent_of(s: Space) -> Cuboid {
    Cuboid { width: s.w() as i32, depth: s.d() as i32, height: s.h() as i32 }
}

/// The orientations in `os` that fit in `e`, in order.
pub open spec fn fitting(os: Seq<Cuboid>, e: Space) -> Seq<Cuboid>
    decreases os.len(),
{
    if os.len() == 0 {
        Seq::empty()
    } else {
        let rest = fitting(os.drop_last(), e);
        if os.last().fits(e) {
            rest.push(os.last())
        } else {
            rest
        }
    }
}

/// The largest squared distance from the bin's upper-right corner to the upper-right corner of
/// an orientation in `os` that fits in `e` when anchored at `e`'s bottom-left corner; `-1`
/// when none fits.
pub open spec fn fit_score(spec: Cuboid, e: Space, os: Seq<Cuboid>) -> int
    decreases os.len(),
{
    if os.len() == 0 {
        -1
    } else {
        let rest = fit_score(spec, e, os.drop_last());
        if os.last().fits(e) {
            max2(
                rest,
                bin_space(spec).upper_right.dist2(Space::placed(e.bottom_left, os.last()).upper_right),
            )
        } else {
            rest
        }
    }
}

/// A score is non-negative exactly when some orientation fits, and an orientation is in
/// `fitting` exactly when it is in `os` and fits.
pub proof fn lemma_fitting(spec: Cuboid, e: Space, os: Seq<Cuboid>)
    ensures
        fit_score(spec, e, os) >= 0 <==> fitting(os, e).len() > 0,
        forall|o: Cuboid| #[trigger] fitting(os, e).contains(o) <==> os.contains(o) && o.fits(e),
    decreases os.len(),
{
    if os.len() > 0 {
        lemma_fitting(spec, e, os.drop_last());
        geom::lemma_dist2_nonneg(
            bin_space(spec).upper_right,
            Space::placed(e.bottom_left, os.last()).upper_right,
        );
        let rest = fitting(os.drop_last(), e);
        assert forall|o: Cuboid| #[trigger] fitting(os, e).contains(o) <==> os.contains(o) && o.fits(
            e,
        ) by {
            if os.contains(o) && o.fits(e) {
                let k = choose|k: int| 0 <= k < os.len() && os[k] == o;
                if k < os.len() - 1 {
                    assert(os.drop_last()[k] == o);
                    assert(os.drop_last().contains(o));
                    assert(rest.contains(o));
                    let j = choose|j: int| 0 <= j < rest.len() && rest[j] == o;
                    if os.last().fits(e) {
                        assert(rest.push(os.last())[j] == o);
                    }
                } else {
                    assert(fitting(os, e).last() == o);
                }
            }
            if fitting(os, e).contains(o) {
                let j = choose|j: int| 0 <= j < fitting(os, e).len() && fitting(os, e)[j] == o;
                if j < rest.len() {
                    assert(rest[j] == o);
                    assert(rest.contains(o));
                    let k = choose|k: int| 0 <= k < os.drop_last().len() && os.drop_last()[k] == o;
                    assert(os[k] == o);
                } else {
                    assert(os[os.len() - 1] == o);
                }
            }
        }
    }
}

/// The orientation that a gene picks among `n` candidates: `max(1, ceil(gene * n)) - 1`,
/// with the gene read as `gene / 2^32`.
pub open spec fn vbo_index(gene: u32, n: int) -> int {
    let k = (gene * n + 0xFFFF_FFFF) / 0x1_0000_0000;
    if k < 1 {
        0
    } else {
        k - 1
    }
}

/// An item together with its smallest extent and its volume.
#[derive(Clone, Copy, Debug)]
pub struct InnerBox {
    pub cuboid: Cuboid,
    pub smallest_dimension: i32,
    pub volume: i128,
}

impl InnerBox {
    pub open spec fn wf(self) -> bool {
        &&& self.cuboid.wf()
        &&& self.smallest_dimension == self.cuboid.smallest()
        &&& self.volume == self.cuboid.vol()
    }

    pub fn from_cuboid(cuboid: Cuboid) -> (r: InnerBox)
        ensures
            r.cuboid == cuboid,
            r.smallest_dimension == cuboid.smallest(),
            r.volume == cuboid.vol(),
    {
        let (w, d, h) = (cuboid.width, cuboid.depth, cuboid.height);
        let smallest_dimension = if w <= d && w <= h {
            w
        } else if d <= h {
            d
        } else {
            h
        };
        InnerBox { cuboid, smallest_dimension, volume: cuboid.volume() }
    }
}

/// Where an item went: the space it occupies, its bin and its index in the input.
#[derive(PartialEq, Eq, Structural, Clone, Copy, Debug)]
pub struct InnerPlacement {
    pub space: Space,
    pub bin_no: usize,
    pub box_idx: usize,
}

impl InnerPlacement {
    pub fn new(space: Space, bin_no: usize, box_idx: usize) -> (r: InnerPlacement)
        ensures
            r == (InnerPlacement { space, bin_no, box_idx }),
    {
        InnerPlacement { space, bin_no, box_idx }
    }
}

/// The elements of `l` that do not touch `p`, in order.
pub open spec fn outside(l: Seq<Space>, p: Space) -> Seq<Space>
    decreases l.len(),
{
    if l.len() == 0 {
        Seq::empty()
    } else {
        let rest = outside(l.drop_last(), p);
        if l.last().touches(p) {
            rest
        } else {
            rest.push(l.last())
        }
    }
}

/// The surviving slabs of every element of `l` that touches `p`, cut around the part of `p`
/// inside it, in order.
pub open spec fn remainders(l: Seq<Space>, p: Space, min_dimension: int, min_volume: int) -> Seq<
    Space,
>
    decreases l.len(),
{
    if l.len() == 0 {
        Seq::empty()
    } else {
        let rest = remainders(l.drop_last(), p, min_dimension, min_volume);
        if l.last().touches(p) {
            rest + prune(l.last().pieces(l.last().clip(p)), min_dimension, min_volume)
        } else {
            rest
        }
    }
}

/// Another element of `c` encloses `c[i]`: a different box, or an equal one that comes first
/// (so that one of several equal elements stays).
pub open spec fn subsumed(c: Seq<Space>, i: int) -> bool {
    exists|j: int|
        0 <= j < c.len() && j != i && #[trigger] c[j].encloses(c[i]) && (c[j] != c[i] || j < i)
}

/// The elements among the first `k` of `c` that no other element of `c` encloses, in order.
pub open spec fn unsubsumed(c: Seq<Space>, k: int) -> Seq<Space>
    decreases k,
{
    if k <= 0 {
        Seq::empty()
    } else {
        let rest = unsubsumed(c, k - 1);
        if subsumed(c, k - 1) {
            rest
        } else {
            rest.push(c[k - 1])
        }
    }
}

/// The empty-space list after a box occupies `p`: the spaces that `p` does not touch, then
/// the remainders of the others that no other remainder encloses (keeping the first of equal
/// ones).
pub open spec fn after_allocation(l: Seq<Space>, p: Space, min_dimension: int, min_volume: int) -> Seq<
    Space,
> {
    let c = remainders(l, p, min_dimension, min_volume);
    outside(l, p) + unsubsumed(c, c.len() as int)
}

/// What holds of every element of `l` holds of every element of `outside(l, p)`, none of
/// which touches `p`.
pub proof fn lemma_outside(l: Seq<Space>, p: Space, pred: spec_fn(Space) -> bool)
    requires
        forall|k: int| 0 <= k < l.len() ==> pred(#[trigger] l[k]),
    ensures
        forall|i: int|
            0 <= i < outside(l, p).len() ==> pred(#[trigger] outside(l, p)[i]) && !outside(
                l,
                p,
            )[i].touches(p),
    decreases l.len(),
{
    if l.len() > 0 {
        let t = l.drop_last();
        assert forall|k: int| 0 <= k < t.len() implies pred(#[trigger] t[k]) by {
            assert(t[k] == l[k]);
        }
        lemma_outside(t, p, pred);
        assert(pred(l[l.len() - 1]));
        let rest = outside(t, p);
        let r = outside(l, p);
        assert forall|i: int| 0 <= i < r.len() implies pred(#[trigger] r[i]) && !r[i].touches(p) by {
            if i < rest.len() {
                assert(r[i] == rest[i]);
            }
        }
    }
}

/// Every remainder is a solid box that shares no volume with `p`; it has each property that
/// every element of `l` has, where that property passes to boxes inside.
pub proof fn lemma_remainders(
    l: Seq<Space>,
    p: Space,
    min_dimension: int,
    min_volume: int,
    pred: spec_fn(Space) -> bool,
)
    requires
        p.wf(),
        forall|k: int| 0 <= k < l.len() ==> pred(#[trigger] l[k]) && l[k].wf(),
        forall|x: Space, y: Space| #[trigger] pred(y) && #[trigger] y.encloses(x) && x.wf() ==> pred(x),
    ensures
        forall|i: int|
            0 <= i < remainders(l, p, min_dimension, min_volume).len() ==> {
                let x = #[trigger] remainders(l, p, min_dimension, min_volume)[i];
                pred(x) && x.wf() && x.solid() && !x.overlaps(p)
            },
    decreases l.len(),
{
    if l.len() > 0 {
        let t = l.drop_last();
        assert forall|k: int| 0 <= k < t.len() implies pred(#[trigger] t[k]) && t[k].wf() by {
            assert(t[k] == l[k]);
        }
        lemma_remainders(t, p, min_dimension, min_volume, pred);
        let e = l.last();
        assert(pred(e) && e.wf());
        if e.touches(p) {
            let c = e.clip(p);
            geom::lemma_difference(e, c);
            let ps = e.pieces(c);
            let q = |x: Space| pred(x) && x.wf() && !x.overlaps(p);
            assert forall|k: int| 0 <= k < ps.len() implies q(#[trigger] ps[k]) by {
                assert(e.encloses(ps[k]) && ps[k].wf());
                assert(pred(ps[k]));
                if ps[k].overlaps(p) {
                    geom::lemma_overlap_within(ps[k], e, p);
                }
            }
            geom::lemma_prune(ps, min_dimension, min_volume, q);
            assert(remainders(l, p, min_dimension, min_volume) == remainders(
                t,
                p,
                min_dimension,
                min_volume,
            ) + prune(ps, min_dimension, min_volume));
            let head = remainders(t, p, min_dimension, min_volume);
            let tail = prune(ps, min_dimension, min_volume);
            assert forall|i: int| 0 <= i < (head + tail).len() implies {
                let x = #[trigger] (head + tail)[i];
                pred(x) && x.wf() && x.solid() && !x.overlaps(p)
            } by {
                if i >= head.len() {
                    assert((head + tail)[i] == tail[i - head.len()]);
                } else {
                    assert((head + tail)[i] == head[i]);
                }
            }
        }
    }
}

/// What holds of every element of `c` holds of every element that survives subsumption.
pub proof fn lemma_unsubsumed(c: Seq<Space>, k: int, pred: spec_fn(Space) -> bool)
    requires
        0 <= k <= c.len(),
        forall|j: int| 0 <= j < c.len() ==> pred(#[trigger] c[j]),
    ensures
        forall|i: int| 0 <= i < unsubsumed(c, k).len() ==> pred(#[trigger] unsubsumed(c, k)[i]),
    decreases k,
{
    if k > 0 {
        lemma_unsubsumed(c, k - 1, pred);
        assert(pred(c[k - 1]));
        let rest = unsubsumed(c, k - 1);
        let r = unsubsumed(c, k);
        assert forall|i: int| 0 <= i < r.len() implies pred(#[trigger] r[i]) by {
            if i < rest.len() {
                assert(r[i] == rest[i]);
            }
        }
    }
}

/// An open bin: its size, the volume placed in it and its empty maximal spaces.
pub struct InnerBin {
    pub spec: Cuboid,
    pub used_volume: i128,
    pub empty_space_list: Vec<Space>,
}

impl InnerBin {
    pub fn new(spec: Cuboid) -> (r: InnerBin)
        requires
            spec.wf(),
        ensures
            r.spec == spec,
            r.used_volume == 0,
            r.empty_space_list@ == seq![bin_space(spec)],
    {
        let empty_space_list = vec![Space::from_placement(&Point::new(0, 0, 0), &spec)];
        InnerBin { spec, empty_space_list, used_volume: 0 }
    }

    /// Marks `space` as occupied: adds its volume to the used volume, drops every empty space
    /// that touches it, and appends the surviving remainders of those spaces that no other
    /// remainder encloses.
    pub fn allocate_space(&mut self, space: &Space, min_dimension: i32, min_volume: i128)
        requires
            i128::MIN <= old(self).used_volume + space.vol() <= i128::MAX,
        ensures
            final(self).spec == old(self).spec,
            final(self).used_volume == old(self).used_volume + space.vol(),
            final(self).empty_space_list@ == after_allocation(
                old(self).empty_space_list@,
                *space,
                min_dimension as int,
                min_volume as int,
            ),
    {
        let used = self.used_volume + space.volume();
        let ghost l = self.empty_space_list@;
        let ghost md = min_dimension as int;
        let ghost mv = min_volume as int;
        let mut kept: Vec<Space> = Vec::new();
        let mut cands: Vec<Space> = Vec::new();
        let mut i: usize = 0;
        while i < self.empty_space_list.len()
            invariant
                l == self.empty_space_list@,
                md == min_dimension as int,
                mv == min_volume as int,
                i <= l.len(),
                kept@ == outside(l.take(i as int), *space),
                cands@ == remainders(l.take(i as int), *space, md, mv),
            decreases l.len() - i,
        {
            assert(l.take(i as int + 1).drop_last() =~= l.take(i as int));
            let e = self.empty_space_list[i];
            assert(l.take(i as int + 1).last() == e);
            if e.intersects(space) {
                let clip = e.union(space);
                let mut ps = e.difference_process(&clip, min_dimension, min_volume);
                cands.append(&mut ps);
                assert(remainders(l.take(i as int + 1), *space, md, mv) == remainders(
                    l.take(i as int),
                    *space,
                    md,
                    mv,
                ) + prune(e.pieces(e.clip(*space)), md, mv));
            } else {
                kept.push(e);
                assert(remainders(l.take(i as int + 1), *space, md, mv) == remainders(
                    l.take(i as int),
                    *space,
                    md,
                    mv,
                ));
            }
            i += 1;
        }
        assert(l.take(l.len() as int) =~= l);
        let ghost head = kept@;
        let mut k: usize = 0;
        while k < cands.len()
            invariant
                k <= cands@.len(),
                head == outside(l, *space),
                kept@ == head + unsubsumed(cands@, k as int),
            decreases cands@.len() - k,
        {
            let mut overlapped = false;
            let mut j: usize = 0;
            while j < cands.len()
                invariant
                    k < cands@.len(),
                    j <= cands@.len(),
                    overlapped <==> exists|m: int|
                        0 <= m < j && m != k && #[trigger] cands@[m].encloses(cands@[k as int]) && (
                        cands@[m] != cands@[k as int] || m < k),
                decreases cands@.len() - j,
            {
                if j != k && cands[j].contains(&cands[k]) && (j < k || cands[j] != cands[k]) {
                    overlapped = true;
                }
                j += 1;
            }
            if !overlapped {
                kept.push(cands[k]);
            }
            assert(kept@ =~= head + unsubsumed(cands@, k as int + 1));
            k += 1;
        }
        self.empty_space_list = kept;
        self.used_volume = used;
    }

    /// The best score of `e` over the orientations `os`.
    fn score_of(&self, e: &Space, os: &Vec<Cuboid>) -> (r: i128)
        requires
            self.spec.wf(),
            e.wf(),
            bin_space(self.spec).encloses(*e),
        ensures
            r == fit_score(self.spec, *e, os@),
    {
        let corner = Point::new(self.spec.width, self.spec.height, self.spec.depth);
        let mut best: i128 = -1;
        let mut i: usize = 0;
        while i < os.len()
            invariant
                i <= os.len(),
                self.spec.wf(),
                e.wf(),
                bin_space(self.spec).encloses(*e),
                corner == bin_space(self.spec).upper_right,
                best == fit_score(self.spec, *e, os@.take(i as int)),
            decreases os.len() - i,
        {
            assert(os@.take(i as int + 1).drop_last() =~= os@.take(i as int));
            let o = &os[i];
            if o.can_fit_in(e) {
                let upper = Space::from_placement(e.origin(), o).upper_right;
                let dist = corner.distance2_from(&upper);
                if dist > best {
                    best = dist;
                }
            }
            i += 1;
        }
        assert(os@.take(os.len() as int) =~= os@);
        best
    }

    /// The index of the empty space that hosts `cuboid` best: among the spaces where some
    /// orientation fits, the first whose score is largest; `None` when nothing fits.
    pub fn try_place_cuboid(&self, cuboid: &Cuboid, rotation_type: RotationType) -> (r: Option<usize>)
        requires
            self.spec.wf(),
            forall|k: int|
                0 <= k < self.empty_space_list@.len() ==> (#[trigger] self.empty_space_list@[k]).wf()
                    && bin_space(self.spec).encloses(self.empty_space_list@[k]),
        ensures
            match r {
                Some(k) => {
                    &&& k < self.empty_space_list@.len()
                    &&& fit_score(self.spec, self.empty_space_list@[k as int], rotation_type.orientations_of(*cuboid)) >= 0
                    &&& forall|j: int| 0 <= j < self.empty_space_list@.len() ==>
                        fit_score(self.spec, #[trigger] self.empty_space_list@[j], rotation_type.orientations_of(*cuboid))
                        <= fit_score(self.spec, self.empty_space_list@[k as int], rotation_type.orientations_of(*cuboid))
                    &&& forall|j: int| 0 <= j < k ==>
                        fit_score(self.spec, #[trigger] self.empty_space_list@[j], rotation_type.orientations_of(*cuboid))
                        < fit_score(self.spec, self.empty_space_list@[k as int], rotation_type.orientations_of(*cuboid))
                },
                None => forall|j: int| 0 <= j < self.empty_space_list@.len() ==>
                    fit_score(self.spec, #[trigger] self.empty_space_list@[j], rotation_type.orientations_of(*cuboid)) < 0,
            },
            best_space(self.spec, self.empty_space_list@, rotation_type.orientations_of(*cuboid)) == match r {
                Some(k) => Some(k as int),
                None => None,
            },
    {
        let os = rotation_type.orientations_for(cuboid);
        let ghost l = self.empty_space_list@;
        let mut max_dist: i128 = -1;
        let mut best: Option<usize> = None;
        let mut j: usize = 0;
        while j < self.empty_space_list.len()
            invariant
                j <= l.len(),
                l == self.empty_space_list@,
                os@ == rotation_type.orientations_of(*cuboid),
                self.spec.wf(),
                forall|k: int| 0 <= k < l.len() ==> (#[trigger] l[k]).wf() && bin_space(self.spec).encloses(l[k]),
                forall|i: int| 0 <= i < j ==> fit_score(self.spec, #[trigger] l[i], os@) <= max_dist,
                match best {
                    Some(k) => {
                        &&& k < j
                        &&& max_dist >= 0
                        &&& fit_score(self.spec, l[k as int], os@) == max_dist
                        &&& forall|i: int| 0 <= i < k ==> fit_score(self.spec, #[trigger] l[i], os@) < max_dist
                    },
                    None => max_dist == -1,
                },
                best_space(self.spec, l.take(j as int), os@) == match best {
                    Some(k) => Some(k as int),
                    None => None,
                },
            decreases l.len() - j,
        {
            assert(l.take(j as int + 1).drop_last() =~= l.take(j as int));
            assert(l.take(j as int + 1).last() == l[j as int]);
            proof {
                if let Some(k) = best {
                    assert(l.take(j as int + 1)[k as int] == l[k as int]);
                }
            }
            let score = self.score_of(&self.empty_space_list[j], &os);
            if score > max_dist {
                max_dist = score;
                best = Some(j);
            }
            j += 1;
        }
        assert(l.take(l.len() as int) =~= l);
        best
    }
}

/// Item `a` goes before item `b`: a smaller key first, equal keys by index.
pub open spec fn precedes(keys: Seq<u32>, a: int, b: int) -> bool {
    keys[a] < keys[b] || (keys[a] == keys[b] && a < b)
}

/// `order` lists each of the indices `0..n` once, ascending by key, equal keys by index.
pub open spec fn is_packing_order(keys: Seq<u32>, n: int, order: Seq<usize>) -> bool {
    &&& order.len() == n
    &&& forall|k: int| 0 <= k < n ==> #[trigger] order[k] < n
    &&& forall|b: usize| b < n ==> #[trigger] order.contains(b)
    &&& forall|i: int, j: int|
        0 <= i < j < n ==> precedes(keys, #[trigger] order[i] as int, #[trigger] order[j] as int)
}

/// The packing order of the first `n` keys: indices sorted by key, equal keys by index.
pub fn calculate_bps(keys: &Vec<u32>, n: usize) -> (r: Vec<usize>)
    requires
        n <= keys.len(),
    ensures
        is_packing_order(keys@, n as int, r@),
{
    let mut order: Vec<usize> = Vec::new();
    let mut i: usize = 0;
    while i < n
        invariant
            i <= n <= keys.len(),
            is_packing_order(keys@, i as int, order@),
        decreases n - i,
    {
        let key = keys[i];
        let mut p: usize = 0;
        while p < order.len() && keys[order[p]] <= key
            invariant
                p <= order@.len() == i,
                i < n <= keys.len(),
                is_packing_order(keys@, i as int, order@),
                key == keys@[i as int],
                forall|q: int| 0 <= q < p ==> keys@[#[trigger] order@[q] as int] <= key,
            decreases i - p,
        {
            p += 1;
        }
        let ghost old_order = order@;
        assert forall|q: int| p <= q < old_order.len() implies keys@[#[trigger] old_order[q] as int] > key by {
            if q > p {
                assert(precedes(keys@, old_order[p as int] as int, old_order[q] as int));
            }
        }
        order.insert(p, i);
        assert forall|b: usize| b < i + 1 implies #[trigger] order@.contains(b) by {
            if b == i {
                assert(order@[p as int] == b);
            } else {
                assert(old_order.contains(b));
                let k = choose|k: int| 0 <= k < i && old_order[k] == b;
                if k < p {
                    assert(order@[k] == b);
                } else {
                    assert(order@[k + 1] == b);
                }
            }
        }
        assert forall|x: int, y: int| 0 <= x < y < i + 1 implies precedes(
            keys@,
            #[trigger] order@[x] as int,
            #[trigger] order@[y] as int,
        ) by {
            if y < p {
                assert(order@[x] == old_order[x] && order@[y] == old_order[y]);
            } else if y == p {
                assert(order@[x] == old_order[x]);
            } else if x < p {
                assert(order@[x] == old_order[x] && order@[y] == old_order[y - 1]);
            } else if x == p {
                assert(order@[y] == old_order[y - 1]);
            } else {
                assert(order@[x] == old_order[x - 1] && order@[y] == old_order[y - 1]);
            }
        }
        i += 1;
    }
    order
}

proof fn lemma_vbo_index(gene: u32, n: int)
    requires
        1 <= n,
    ensures
        0 <= vbo_index(gene, n) < n,
{
    let d: int = 0x1_0000_0000;
    let x: int = gene * n + 0xFFFF_FFFF;
    vstd::arithmetic::div_mod::lemma_fundamental_div_mod(x, d);
    let q = x / d;
    assert(x < d * (n + 1)) by (nonlinear_arith)
        requires
            x == gene * n + 0xFFFF_FFFF,
            0 <= gene < d,
            1 <= n,
            d == 0x1_0000_0000,
    ;
    if q > n {
        assert(d * q >= d * (n + 1)) by (nonlinear_arith)
            requires
                q >= n + 1,
                d > 0,
        ;
    }
}

/// The volume placed in bin `b`.
pub open spec fn load(pls: Seq<InnerPlacement>, b: int) -> int
    decreases pls.len(),
{
    if pls.len() == 0 {
        0
    } else {
        load(pls.drop_last(), b) + if pls.last().bin_no == b {
            pls.last().space.vol()
        } else {
            0
        }
    }
}

/// The smallest load among bins `0..num_bins`.
pub open spec fn least_load_of(pls: Seq<InnerPlacement>, num_bins: int) -> int
    decreases num_bins,
{
    if num_bins <= 1 {
        load(pls, 0)
    } else {
        min2(least_load_of(pls, num_bins - 1), load(pls, num_bins - 1))
    }
}

/// The item indices of the placements, in placement order.
pub open spec fn order_of(pls: Seq<InnerPlacement>) -> Seq<usize> {
    pls.map_values(|p: InnerPlacement| p.box_idx)
}

/// Some admissible orientation of `c` fits in an empty bin of size `bin`.
pub open spec fn can_hold(tp: RotationType, c: Cuboid, bin: Cuboid) -> bool {
    exists|i: int|
        0 <= i < tp.orientations_of(c).len() && #[trigger] tp.orientations_of(c)[i].fits(
            bin_space(bin),
        )
}

/// A placement lies in an opened bin, inside its walls, and holds its item in an admissible
/// orientation.
pub open spec fn placed_well(
    items: Seq<Cuboid>,
    bin: Cuboid,
    tp: RotationType,
    num_bins: int,
    p: InnerPlacement,
) -> bool {
    &&& p.bin_no < num_bins
    &&& p.box_idx < items.len()
    &&& bin_space(bin).encloses(p.space)
    &&& p.space.solid()
    &&& tp.orientations_of(items[p.box_idx as int]).contains(extent_of(p.space))
}

/// Placements in the same bin share no volume.
pub open spec fn apart(pls: Seq<InnerPlacement>) -> bool {
    forall|i: int, j: int|
        0 <= i < j < pls.len() && #[trigger] pls[i].bin_no == #[trigger] pls[j].bin_no ==> !pls[i].space.overlaps(
            pls[j].space,
        )
}

/// Some placement went into bin `b`.
pub open spec fn bin_used(pls: Seq<InnerPlacement>, b: int) -> bool {
    exists|i: int| 0 <= i < pls.len() && #[trigger] pls[i].bin_no == b
}

/// `sol` packs every item of `items` in the order given by `keys`, each once, inside its bin
/// in an admissible orientation, with no two items of a bin sharing volume; each of its
/// `num_bins` bins holds a placement, and `least_load` is the smallest of their loads.
pub open spec fn valid_solution(
    items: Seq<Cuboid>,
    bin: Cuboid,
    tp: RotationType,
    keys: Seq<u32>,
    sol: InnerSolution,
) -> bool {
    let pls = sol.placements@;
    let n = items.len() as int;
    &&& n <= usize::MAX
    &&& pls.len() == n
    &&& is_packing_order(keys, n, order_of(pls))
    &&& 1 <= sol.num_bins <= n
    &&& forall|i: int| 0 <= i < n ==> placed_well(items, bin, tp, sol.num_bins as int, #[trigger] pls[i])
    &&& apart(pls)
    &&& forall|b: int| 0 <= b < sol.num_bins ==> #[trigger] bin_used(pls, b)
    &&& sol.least_load == least_load_of(pls, sol.num_bins as int)
}

/// The result of decoding a chromosome.
#[derive(Debug)]
pub struct InnerSolution {
    pub num_bins: usize,
    pub least_load: i128,
    pub placements: Vec<InnerPlacement>,
}

impl InnerSolution {
    pub fn new(num_bins: usize, least_load: i128, placements: Vec<InnerPlacement>) -> (r: InnerSolution)
        ensures
            r.num_bins == num_bins,
            r.least_load == least_load,
            r.placements@ == placements@,
    {
        InnerSolution { num_bins, least_load, placements }
    }

    /// A copy of this solution.
    pub fn duplicate(&self) -> (r: InnerSolution)
        ensures
            r.num_bins == self.num_bins,
            r.least_load == self.least_load,
            r.placements@ == self.placements@,
    {
        let mut placements: Vec<InnerPlacement> = Vec::new();
        let mut i: usize = 0;
        while i < self.placements.len()
            invariant
                i <= self.placements@.len(),
                placements@ == self.placements@.take(i as int),
            decreases self.placements@.len() - i,
        {
            placements.push(self.placements[i]);
            i += 1;
            assert(placements@ =~= self.placements@.take(i as int));
        }
        assert(self.placements@.take(i as int) =~= self.placements@);
        InnerSolution { num_bins: self.num_bins, least_load: self.least_load, placements }
    }
}

/// An empty space of bin `b` lies inside the bin and shares no volume with any item placed
/// in `b`.
pub open spec fn ems_ok(bin: Cuboid, pls: Seq<InnerPlacement>, b: int, e: Space) -> bool {
    &&& e.wf()
    &&& bin_space(bin).encloses(e)
    &&& forall|k: int|
        0 <= k < pls.len() && #[trigger] pls[k].bin_no == b ==> !e.overlaps(pls[k].space)
}

/// A box inside another has no larger volume.
pub proof fn lemma_enclosed_volume(outer: Space, inner: Space)
    requires
        outer.encloses(inner),
        inner.wf(),
    ensures
        0 <= inner.vol() <= outer.vol(),
{
    let (a, b, c) = (inner.w(), inner.d(), inner.h());
    let (x, y, z) = (outer.w(), outer.d(), outer.h());
    assert(0 <= a * b * c <= x * y * z) by (nonlinear_arith)
        requires
            0 <= a <= x,
            0 <= b <= y,
            0 <= c <= z,
    ;
}

/// Each load lies between zero and the number of placements times the bin volume.
pub proof fn lemma_load_bounds(pls: Seq<InnerPlacement>, bin: Cuboid, b: int)
    requires
        bin.wf(),
        forall|i: int| 0 <= i < pls.len() ==> bin_space(bin).encloses(#[trigger] pls[i].space) && pls[i].space.wf(),
    ensures
        0 <= load(pls, b) <= pls.len() * bin.vol(),
    decreases pls.len(),
{
    if pls.len() > 0 {
        let t = pls.drop_last();
        assert forall|i: int| 0 <= i < t.len() implies bin_space(bin).encloses(#[trigger] t[i].space) && t[i].space.wf() by {
            assert(t[i] == pls[i]);
        }
        lemma_load_bounds(t, bin, b);
        lemma_enclosed_volume(bin_space(bin), pls.last().space);
        assert(bin_space(bin).vol() == bin.vol());
        assert((t.len() + 1) * bin.vol() == t.len() * bin.vol() + bin.vol()) by (nonlinear_arith);
    }
}

/// A bin that holds no placement has no load.
pub proof fn lemma_load_absent(pls: Seq<InnerPlacement>, b: int)
    requires
        forall|i: int| 0 <= i < pls.len() ==> #[trigger] pls[i].bin_no != b,
    ensures
        load(pls, b) == 0,
    decreases pls.len(),
{
    if pls.len() > 0 {
        let t = pls.drop_last();
        assert forall|i: int| 0 <= i < t.len() implies #[trigger] t[i].bin_no != b by {
            assert(t[i] == pls[i]);
        }
        lemma_load_absent(t, b);
    }
}

/// The least load is the load of one of the bins, and no bin has less.
pub proof fn lemma_least_load(pls: Seq<InnerPlacement>, num_bins: int)
    requires
        num_bins >= 1,
    ensures
        exists|b: int| 0 <= b < num_bins && least_load_of(pls, num_bins) == load(pls, b),
        forall|b: int| 0 <= b < num_bins ==> least_load_of(pls, num_bins) <= #[trigger] load(pls, b),
    decreases num_bins,
{
    if num_bins > 1 {
        lemma_least_load(pls, num_bins - 1);
        if least_load_of(pls, num_bins - 1) > load(pls, num_bins - 1) {
            assert(least_load_of(pls, num_bins) == load(pls, num_bins - 1));
        } else {
            let b = choose|b: int| 0 <= b < num_bins - 1 && least_load_of(pls, num_bins - 1) == load(pls, b);
            assert(least_load_of(pls, num_bins) == load(pls, b));
        }
    } else {
        assert(least_load_of(pls, num_bins) == load(pls, 0));
    }
}

/// The sizes of the items.
pub open spec fn cuboids_of(boxes: Seq<InnerBox>) -> Seq<Cuboid> {
    boxes.map_values(|b: InnerBox| b.cuboid)
}

/// The index of the best space of `l` for the orientations `os`: among the spaces where some
/// orientation fits, the first with the largest score.
pub open spec fn best_space(spec: Cuboid, l: Seq<Space>, os: Seq<Cuboid>) -> Option<int>
    decreases l.len(),
{
    if l.len() == 0 {
        None
    } else {
        let score = fit_score(spec, l.last(), os);
        match best_space(spec, l.drop_last(), os) {
            None => if score >= 0 {
                Some(l.len() - 1)
            } else {
                None
            },
            Some(k) => if score > fit_score(spec, l[k], os) {
                Some(l.len() - 1)
            } else {
                Some(k)
            },
        }
    }
}

/// The first bin (given by its empty spaces) with room for one of the orientations `os`, and
/// its best space.
pub open spec fn first_fit(spec: Cuboid, bins: Seq<Seq<Space>>, os: Seq<Cuboid>) -> Option<(int, int)>
    decreases bins.len(),
{
    if bins.len() == 0 {
        None
    } else {
        match first_fit(spec, bins.drop_last(), os) {
            Some(p) => Some(p),
            None => match best_space(spec, bins.last(), os) {
                Some(k) => Some((bins.len() - 1, k)),
                None => None,
            },
        }
    }
}

/// Step `t` of decoding: item `order[t]` goes to the first bin with room (or to a new bin),
/// into that bin's best space, in the orientation its gene picks among those that fit there;
/// the bin's empty spaces are then updated against the items still to come.
pub open spec fn place_step(
    items: Seq<Cuboid>,
    bin: Cuboid,
    tp: RotationType,
    keys: Seq<u32>,
    order: Seq<usize>,
    t: int,
    bins: Seq<Seq<Space>>,
) -> (InnerPlacement, Seq<Seq<Space>>) {
    let b = order[t];
    let os = tp.orientations_of(items[b as int]);
    let (f, k, opened) = match first_fit(bin, bins, os) {
        Some((f, k)) => (f, k, bins),
        None => (bins.len() as int, 0int, bins.push(seq![bin_space(bin)])),
    };
    let e = opened[f][k];
    let fits = fitting(os, e);
    let gene = keys[items.len() + b];
    let space = Space::placed(e.bottom_left, fits[vbo_index(gene, fits.len() as int)]);
    let rest = order.subrange(t + 1, order.len() as int);
    (
        InnerPlacement { space, bin_no: f as usize, box_idx: b },
        opened.update(f, after_allocation(opened[f], space, min_dim_of(items, rest), min_vol_of(items, rest))),
    )
}

/// The placements and the bins' empty spaces after the first `t` steps of decoding.
pub open spec fn decode_upto(
    items: Seq<Cuboid>,
    bin: Cuboid,
    tp: RotationType,
    keys: Seq<u32>,
    order: Seq<usize>,
    t: int,
) -> (Seq<InnerPlacement>, Seq<Seq<Space>>)
    decreases t,
{
    if t <= 0 {
        (Seq::empty(), Seq::empty())
    } else {
        let (pls, bins) = decode_upto(items, bin, tp, keys, order, t - 1);
        let (p, next) = place_step(items, bin, tp, keys, order, t - 1, bins);
        (pls.push(p), next)
    }
}

/// `sol` is a valid packing and is exactly what decoding `keys` step by step, along the
/// packing order, produces: the same placements, and as many bins as that decoding opened.
pub open spec fn decodes_to(items: Seq<Cuboid>, bin: Cuboid, tp: RotationType, keys: Seq<u32>, sol: InnerSolution) -> bool {
    let model = decode_upto(items, bin, tp, keys, order_of(sol.placements@), items.len() as int);
    &&& valid_solution(items, bin, tp, keys, sol)
    &&& sol.placements@ == model.0
    &&& sol.num_bins == model.1.len()
}

proof fn lemma_first_fit_prefix(spec: Cuboid, bins: Seq<Seq<Space>>, os: Seq<Cuboid>, j: int)
    requires
        0 <= j <= bins.len(),
        first_fit(spec, bins.take(j), os).is_some(),
    ensures
        first_fit(spec, bins, os) == first_fit(spec, bins.take(j), os),
    decreases bins.len(),
{
    if j < bins.len() {
        assert(bins.drop_last().take(j) =~= bins.take(j));
        lemma_first_fit_prefix(spec, bins.drop_last(), os, j);
    } else {
        assert(bins.take(j) =~= bins);
    }
}

/// The empty spaces of each bin.
pub open spec fn lists_of(bins: Seq<InnerBin>) -> Seq<Seq<Space>> {
    bins.map_values(|b: InnerBin| b.empty_space_list@)
}

/// The decoder's fixed inputs: the items, the bin size and the rotation rule.
pub struct Placer {
    pub boxes: Vec<InnerBox>,
    pub bin_spec: Cuboid,
    pub rotation_type: RotationType,
}

impl Placer {
    /// At least one item; each item and the bin have positive extents; every item fits in an
    /// empty bin in some admissible orientation; the bin volume fits in an `i64`.
    pub open spec fn wf(self) -> bool {
        &&& self.boxes@.len() >= 1
        &&& self.bin_spec.wf()
        &&& self.bin_spec.vol() <= i64::MAX
        &&& forall|i: int| 0 <= i < self.boxes@.len() ==> (#[trigger] self.boxes@[i]).wf()
            && can_hold(self.rotation_type, self.boxes@[i].cuboid, self.bin_spec)
    }

    pub fn new(boxes: Vec<InnerBox>, bin_spec: Cuboid, rotation_type: RotationType) -> (r: Placer)
        ensures
            r.boxes@ == boxes@,
            r.bin_spec == bin_spec,
            r.rotation_type == rotation_type,
    {
        Placer { boxes, bin_spec, rotation_type }
    }

    /// Places item `box_idx` at the bottom-left corner of `container`, in the orientation that
    /// its gene picks among the admissible orientations that fit there.
    #[verifier::rlimit(50)]
    fn place_box(&self, box_idx: usize, chromosome: &Chromosome, container: &Space) -> (r: Space)
        requires
            self.wf(),
            box_idx < self.boxes@.len(),
            chromosome@.len() == 2 * self.boxes@.len(),
            container.wf(),
            bin_space(self.bin_spec).encloses(*container),
            fitting(self.rotation_type.orientations_of(self.boxes@[box_idx as int].cuboid), *container).len() > 0,
        ensures
            ({
                let fits = fitting(self.rotation_type.orientations_of(self.boxes@[box_idx as int].cuboid), *container);
                let gene = chromosome@[self.boxes@.len() + box_idx];
                r == Space::placed(container.bottom_left, fits[vbo_index(gene, fits.len() as int)])
            }),
            container.encloses(r),
            r.solid(),
            self.rotation_type.orientations_of(self.boxes@[box_idx as int].cuboid).contains(extent_of(r)),
    {
        let cuboid = &self.boxes[box_idx].cuboid;
        let gene = chromosome[chromosome.len() / 2 + box_idx];
        let os = self.rotation_type.orientations_for(cuboid);
        let mut fits: Vec<Cuboid> = Vec::new();
        let mut i: usize = 0;
        while i < os.len()
            invariant
                i <= os@.len(),
                fits@ == fitting(os@.take(i as int), *container),
            decreases os@.len() - i,
        {
            assert(os@.take(i as int + 1).drop_last() =~= os@.take(i as int));
            if os[i].can_fit_in(container) {
                fits.push(os[i]);
            }
            i += 1;
        }
        assert(os@.take(os@.len() as int) =~= os@);
        proof {
            lemma_vbo_index(gene, fits@.len() as int);
            lemma_fitting(self.bin_spec, *container, os@);
        }
        let decoded = ((gene as u128) * (fits.len() as u128) + 0xFFFF_FFFF) / 0x1_0000_0000;
        let idx: usize = if decoded < 1 {
            0
        } else {
            (decoded - 1) as usize
        };
        let orientation = fits[idx];
        proof {
            assert(fitting(os@, *container).contains(orientation));
            geom::lemma_rotation_volume(orientation, *cuboid);
            let k = choose|k: int| 0 <= k < os@.len() && os@[k] == orientation;
            geom::lemma_orientations(self.rotation_type, *cuboid);
            assert(orientation.wf());
        }
        let r = Space::from_placement(container.origin(), &orientation);
        assert(extent_of(r) == orientation);
        r
    }

    /// Decodes `chromosome`: places the items one at a time in packing order, each in the
    /// first opened bin that has room for it (opening a new bin when none has), in that bin's
    /// best empty space, in the orientation its gene picks.
    pub fn place_boxes(&self, chromosome: &Chromosome) -> (r: InnerSolution)
        requires
            self.wf(),
            chromosome@.len() == 2 * self.boxes@.len(),
        ensures
            decodes_to(cuboids_of(self.boxes@), self.bin_spec, self.rotation_type, chromosome@, r),
    {
        let n = self.boxes.len();
        let bin = self.bin_spec;
        let tp = self.rotation_type;
        let ghost boxes = cuboids_of(self.boxes@);
        let order = calculate_bps(chromosome, n);
        let mut placements: Vec<InnerPlacement> = Vec::new();
        let mut bins: Vec<InnerBin> = Vec::new();
        let mut t: usize = 0;
        while t < n
            invariant
                self.wf(),
                n == boxes.len(),
                boxes == cuboids_of(self.boxes@),
                bin == self.bin_spec,
                tp == self.rotation_type,
                chromosome@.len() == 2 * n,
                is_packing_order(chromosome@, n as int, order@),
                t <= n,
                placements@.len() == t,
                (placements@, lists_of(bins@)) == decode_upto(boxes, bin, tp, chromosome@, order@, t as int),
                forall|k: int| 0 <= k < t ==> (#[trigger] placements@[k]).box_idx == order@[k],
                bins@.len() <= t,
                t > 0 ==> bins@.len() >= 1,
                forall|k: int| 0 <= k < t ==> placed_well(boxes, bin, tp, bins@.len() as int, #[trigger] placements@[k]),
                apart(placements@),
                forall|b: int| 0 <= b < bins@.len() ==> #[trigger] bin_used(placements@, b),
                forall|b: int| 0 <= b < bins@.len() ==> {
                    &&& (#[trigger] bins@[b]).spec == bin
                    &&& bins@[b].used_volume == load(placements@, b)
                    &&& forall|j: int| 0 <= j < bins@[b].empty_space_list@.len() ==> ems_ok(bin, placements@, b, #[trigger] bins@[b].empty_space_list@[j])
                },
            decreases n - t,
        {
            let box_idx = order[t];
            let cuboid = self.boxes[box_idx].cuboid;
            let ghost os = tp.orientations_of(cuboid);
            let ghost lists = lists_of(bins@);
            let mut fit: Option<(usize, usize)> = None;
            let mut j: usize = 0;
            while j < bins.len() && fit.is_none()
                invariant
                    j <= bins@.len(),
                    bin.wf(),
                    os == tp.orientations_of(cuboid),
                    lists == lists_of(bins@),
                    fit.is_none() ==> first_fit(bin, lists.take(j as int), os).is_none(),
                    fit.is_some() ==> first_fit(bin, lists.take(j as int), os) == Some(
                        (fit.unwrap().0 as int, fit.unwrap().1 as int),
                    ),
                    forall|b: int| 0 <= b < bins@.len() ==> {
                        &&& (#[trigger] bins@[b]).spec == bin
                        &&& forall|q: int| 0 <= q < bins@[b].empty_space_list@.len() ==> ems_ok(bin, placements@, b, #[trigger] bins@[b].empty_space_list@[q])
                    },
                    match fit {
                        Some((f, k)) => f < bins@.len() && k < bins@[f as int].empty_space_list@.len()
                            && fit_score(bin, bins@[f as int].empty_space_list@[k as int], os) >= 0,
                        None => true,
                    },
                decreases bins@.len() - j,
            {
                assert(lists.take(j as int + 1).drop_last() =~= lists.take(j as int));
                assert(lists.take(j as int + 1).last() == bins@[j as int].empty_space_list@);
                let found = bins[j].try_place_cuboid(&cuboid, tp);
                if let Some(k) = found {
                    fit = Some((j, k));
                }
                j += 1;
            }
            proof {
                if fit.is_some() {
                    lemma_first_fit_prefix(bin, lists, os, j as int);
                } else {
                    assert(lists.take(j as int) =~= lists);
                }
            }
            let (f, k) = match fit {
                Some(pair) => pair,
                None => {
                    bins.push(InnerBin::new(bin));
                    assert(lists_of(bins@) =~= lists.push(seq![bin_space(bin)]));
                    proof {
                        let b = bins@.len() - 1;
                        assert forall|i: int| 0 <= i < placements@.len() implies #[trigger] placements@[i].bin_no != b by {
                            assert(placed_well(boxes, bin, tp, b, placements@[i]));
                        }
                        lemma_load_absent(placements@, b);
                        assert(bins@[b].empty_space_list@[0] == bin_space(bin));
                        let i = choose|i: int| 0 <= i < os.len() && #[trigger] os[i].fits(bin_space(bin));
                        lemma_fitting(bin, bin_space(bin), os);
                        assert(os.contains(os[i]));
                        assert(fitting(os, bin_space(bin)).contains(os[i]));
                    }
                    (bins.len() - 1, 0)
                },
            };
            let container = bins[f].empty_space_list[k];
            proof {
                lemma_fitting(bin, container, os);
            }
            let space = self.place_box(box_idx, chromosome, &container);
            let (min_dimension, min_volume) = self.min_dimension_and_volume(&order, t + 1);
            let ghost old_pls = placements@;
            let placement = InnerPlacement::new(space, f, box_idx);
            placements.push(placement);
            proof {
                let pls = placements@;
                assert(pls.drop_last() =~= old_pls);
                assert forall|k: int| 0 <= k < t && old_pls[k].bin_no == f implies !space.overlaps(old_pls[k].space) by {
                    assert(ems_ok(bin, old_pls, f as int, container));
                    geom::lemma_disjoint_within(space, container, old_pls[k].space);
                }
                assert forall|i: int| 0 <= i < pls.len() implies bin_space(bin).encloses(#[trigger] pls[i].space) && pls[i].space.wf() by {
                    if i < t {
                        assert(pls[i] == old_pls[i]);
                    }
                }
                lemma_load_bounds(pls, bin, f as int);
                assert(load(pls, f as int) == load(old_pls, f as int) + space.vol());
                assert(pls.len() * bin.vol() <= usize::MAX * i64::MAX) by (nonlinear_arith)
                    requires pls.len() <= usize::MAX, 0 <= bin.vol() <= i64::MAX;
            }
            let ghost old_bins = bins@;
            bins[f].allocate_space(&space, min_dimension, min_volume);
            proof {
                let (m_pls, m_lists) = decode_upto(boxes, bin, tp, chromosome@, order@, t as int);
                let (m_p, m_next) = place_step(boxes, bin, tp, chromosome@, order@, t as int, m_lists);
                assert(boxes[box_idx as int] == cuboid);
                assert(lists_of(old_bins)[f as int][k as int] == container);
                assert(m_p == placement);
                assert(lists_of(bins@) =~= m_next);
                assert(decode_upto(boxes, bin, tp, chromosome@, order@, t as int + 1) == (m_pls.push(m_p), m_next));
                assert forall|b: int| 0 <= b < bins@.len() implies #[trigger] bin_used(placements@, b) by {
                    if b == f {
                        assert(placements@[t as int].bin_no == b);
                    } else {
                        assert(bin_used(old_pls, b));
                        let i = choose|i: int| 0 <= i < old_pls.len() && #[trigger] old_pls[i].bin_no == b;
                        assert(placements@[i] == old_pls[i]);
                    }
                }
            }
            proof {
                let pls = placements@;
                let l = bins@[f as int].empty_space_list@;
                let pred = |e: Space| ems_ok(bin, old_pls, f as int, e);
                assert forall|x: Space, y: Space| #[trigger] pred(y) && #[trigger] y.encloses(x) && x.wf() implies pred(x) by {
                    assert forall|q: int| 0 <= q < old_pls.len() && #[trigger] old_pls[q].bin_no == f implies !x.overlaps(old_pls[q].space) by {
                        geom::lemma_disjoint_within(x, y, old_pls[q].space);
                    }
                }
                let l_old = old_bins[f as int].empty_space_list@;
                let md = min_dimension as int;
                let mv = min_volume as int;
                assert forall|q: int| 0 <= q < l_old.len() implies pred(#[trigger] l_old[q]) && l_old[q].wf() by {
                    assert(ems_ok(bin, old_pls, f as int, l_old[q]));
                }
                lemma_outside(l_old, space, pred);
                lemma_remainders(l_old, space, md, mv, pred);
                let keep = |e: Space| ems_ok(bin, pls, f as int, e);
                let head = outside(l_old, space);
                let rem = remainders(l_old, space, md, mv);
                assert forall|q: int| 0 <= q < head.len() implies keep(#[trigger] head[q]) by {
                    geom::lemma_apart_disjoint(head[q], space);
                }
                assert forall|q: int| 0 <= q < rem.len() implies keep(#[trigger] rem[q]) by {
                }
                lemma_unsubsumed(rem, rem.len() as int, keep);
                let tail = unsubsumed(rem, rem.len() as int);
                assert(l == head + tail);
                assert forall|q: int| 0 <= q < l.len() implies ems_ok(bin, pls, f as int, #[trigger] l[q]) by {
                    if q < head.len() {
                        assert(l[q] == head[q]);
                    } else {
                        assert(l[q] == tail[q - head.len()]);
                    }
                }
                assert forall|b: int| 0 <= b < bins@.len() && b != f implies load(pls, b) == load(old_pls, b) by {
                }
                assert forall|b: int, q: int|
                    0 <= b < bins@.len() && b != f && 0 <= q < bins@[b].empty_space_list@.len() implies ems_ok(bin, pls, b, #[trigger] bins@[b].empty_space_list@[q]) by {
                    assert(bins@[b] == old_bins[b]);
                    assert(ems_ok(bin, old_pls, b, old_bins[b].empty_space_list@[q]));
                }
            }
            t += 1;
        }
        let ghost pls = placements@;
        let mut least: i128 = bins[0].used_volume;
        let mut b: usize = 1;
        while b < bins.len()
            invariant
                1 <= b <= bins@.len(),
                least == least_load_of(pls, b as int),
                forall|c: int| 0 <= c < bins@.len() ==> (#[trigger] bins@[c]).used_volume == load(pls, c),
            decreases bins@.len() - b,
        {
            if bins[b].used_volume < least {
                least = bins[b].used_volume;
            }
            b += 1;
        }
        assert(order_of(pls) =~= order@);
        assert(pls == decode_upto(boxes, bin, tp, chromosome@, order_of(pls), n as int).0);
        assert(bins@.len() == lists_of(bins@).len());
        InnerSolution::new(bins.len(), least, placements)
    }

    /// The smallest extent and the smallest volume among the items `order[from..]`; `i32::MAX`
    /// and `i128::MAX` when there are none.
    fn min_dimension_and_volume(&self, order: &Vec<usize>, from: usize) -> (r: (i32, i128))
        requires
            self.wf(),
            from <= order@.len(),
            forall|k: int| 0 <= k < order@.len() ==> #[trigger] order@[k] < self.boxes@.len(),
        ensures
            r.0 == min_dim_of(cuboids_of(self.boxes@), order@.subrange(from as int, order@.len() as int)),
            r.1 == min_vol_of(cuboids_of(self.boxes@), order@.subrange(from as int, order@.len() as int)),
    {
        let mut min_d: i32 = i32::MAX;
        let mut min_v: i128 = i128::MAX;
        let mut k: usize = from;
        while k < order.len()
            invariant
                self.wf(),
                from <= k <= order@.len(),
                forall|q: int| 0 <= q < order@.len() ==> #[trigger] order@[q] < self.boxes@.len(),
                min_d == min_dim_of(cuboids_of(self.boxes@), order@.subrange(from as int, k as int)),
                min_v == min_vol_of(cuboids_of(self.boxes@), order@.subrange(from as int, k as int)),
            decreases order@.len() - k,
        {
            assert(order@.subrange(from as int, k + 1).drop_last() =~= order@.subrange(from as int, k as int));
            let b = &self.boxes[order[k]];
            assert(self.boxes@[order@[k as int] as int].wf());
            if b.smallest_dimension < min_d {
                min_d = b.smallest_dimension;
            }
            if b.volume < min_v {
                min_v = b.volume;
            }
            k += 1;
        }
        (min_d, min_v)
    }
}

/// The smallest extent among the items `s`; `i32::MAX` when there are none.
pub open spec fn min_dim_of(items: Seq<Cuboid>, s: Seq<usize>) -> int
    decreases s.len(),
{
    if s.len() == 0 {
        i32::MAX as int
    } else {
        min2(min_dim_of(items, s.drop_last()), items[s.last() as int].smallest())
    }
}

/// The smallest volume among the items `s`; `i128::MAX` when there are none.
pub open spec fn min_vol_of(items: Seq<Cuboid>, s: Seq<usize>) -> int
    decreases s.len(),
{
    if s.len() == 0 {
        i128::MAX as int
    } else {
        min2(min_vol_of(items, s.drop_last()), items[s.last() as int].vol())
    }
}

/// The fitness of a solution, scaled by the bin volume: `num_bins * bin_volume + least_load`.
/// Lower is better; it is `bin_volume` times `num_bins + least_load / bin_volume`.
pub open spec fn fitness(sol: InnerSolution, bin_volume: int) -> int {
    sol.num_bins * bin_volume + sol.least_load
}

/// Decodes chromosomes for one packing problem and scores the results.
pub struct Decoder {
    pub bin_volume: i128,
    pub placer: Placer,
}

impl Decoder {
    pub open spec fn wf(self) -> bool {
        self.placer.wf() && self.bin_volume == self.placer.bin_spec.vol()
    }

    pub open spec fn num_items(self) -> int {
        self.placer.boxes@.len() as int
    }

    /// `sol` is the decoding of `keys` for this problem.
    pub open spec fn decodes(self, keys: Seq<u32>, sol: InnerSolution) -> bool {
        decodes_to(cuboids_of(self.placer.boxes@), self.placer.bin_spec, self.placer.rotation_type, keys, sol)
    }

    pub fn new(boxes: &[Cuboid], bin_spec: Cuboid, rotation_type: RotationType) -> (r: Decoder)
        requires
            boxes@.len() >= 1,
            bin_spec.wf(),
            bin_spec.vol() <= i64::MAX,
            forall|i: int| 0 <= i < boxes@.len() ==> (#[trigger] boxes@[i]).wf() && can_hold(rotation_type, boxes@[i], bin_spec),
        ensures
            r.wf(),
            cuboids_of(r.placer.boxes@) == boxes@,
            r.placer.bin_spec == bin_spec,
            r.placer.rotation_type == rotation_type,
    {
        let mut inner: Vec<InnerBox> = Vec::new();
        let mut i: usize = 0;
        while i < boxes.len()
            invariant
                i <= boxes@.len(),
                inner@.len() == i,
                forall|k: int| 0 <= k < i ==> (#[trigger] inner@[k]).cuboid == boxes@[k] && inner@[k].wf(),
                forall|k: int| 0 <= k < boxes@.len() ==> (#[trigger] boxes@[k]).wf(),
            decreases boxes@.len() - i,
        {
            inner.push(InnerBox::from_cuboid(boxes[i]));
            i += 1;
        }
        let bin_volume = bin_spec.volume();
        assert(cuboids_of(inner@) =~= boxes@);
        Decoder { bin_volume, placer: Placer::new(inner, bin_spec, rotation_type) }
    }

    pub fn decode_chromosome(&self, individual: &Chromosome) -> (r: InnerSolution)
        requires
            self.wf(),
            individual@.len() == 2 * self.num_items(),
        ensures
            self.decodes(individual@, r),
            0 <= r.least_load <= self.num_items() * self.bin_volume,
    {
        let r = self.placer.place_boxes(individual);
        proof {
            self.lemma_least_load_bounds(individual@, r);
        }
        r
    }

    /// The least load of a valid decoding lies between zero and `n` times the bin volume.
    pub proof fn lemma_least_load_bounds(self, keys: Seq<u32>, sol: InnerSolution)
        requires
            self.wf(),
            self.decodes(keys, sol),
        ensures
            0 <= sol.least_load <= self.num_items() * self.bin_volume,
    {
        let pls = sol.placements@;
        let bin = self.placer.bin_spec;
        lemma_least_load(pls, sol.num_bins as int);
        let b = choose|b: int| 0 <= b < sol.num_bins && least_load_of(pls, sol.num_bins as int) == load(pls, b);
        assert forall|i: int| 0 <= i < pls.len() implies bin_space(bin).encloses(#[trigger] pls[i].space) && pls[i].space.wf() by {
            assert(placed_well(cuboids_of(self.placer.boxes@), bin, self.placer.rotation_type, sol.num_bins as int, pls[i]));
        }
        lemma_load_bounds(pls, bin, b);
    }

    /// The scaled fitness of `solution`.
    pub fn fitness_of(&self, solution: &InnerSolution) -> (r: u128)
        requires
            self.wf(),
            solution.num_bins <= self.num_items(),
            0 <= solution.least_load <= self.num_items() * self.bin_volume,
        ensures
            r == fitness(*solution, self.bin_volume as int),
    {
        let n = self.placer.boxes.len();
        proof {
            assert(solution.num_bins * self.bin_volume <= n * self.bin_volume) by (nonlinear_arith)
                requires solution.num_bins <= n, self.bin_volume >= 0;
            assert(n * self.bin_volume <= usize::MAX * i64::MAX) by (nonlinear_arith)
                requires n <= usize::MAX, 0 <= self.bin_volume <= i64::MAX;
        }
        (solution.num_bins as u128) * (self.bin_volume as u128) + (solution.least_load as u128)
    }
}

/// Some placement holds item `b`.
pub open spec fn holds_item(pls: Seq<InnerPlacement>, b: int) -> bool {
    exists|i: int| 0 <= i < pls.len() && #[trigger] pls[i].box_idx == b
}

/// Every item appears in exactly one placement.
pub proof fn lemma_each_item_once(
    items: Seq<Cuboid>,
    bin: Cuboid,
    tp: RotationType,
    keys: Seq<u32>,
    sol: InnerSolution,
)
    requires
        valid_solution(items, bin, tp, keys, sol),
    ensures
        forall|b: int| 0 <= b < items.len() ==> #[trigger] holds_item(sol.placements@, b),
        forall|i: int, j: int|
            0 <= i < j < sol.placements@.len() ==> (#[trigger] sol.placements@[i]).box_idx
                != (#[trigger] sol.placements@[j]).box_idx,
{
    let pls = sol.placements@;
    let order = order_of(pls);
    assert forall|b: int| 0 <= b < items.len() implies #[trigger] holds_item(pls, b) by {
        assert(order.contains(b as usize));
        let i = choose|i: int| 0 <= i < order.len() && order[i] == b as usize;
        assert(pls[i].box_idx == order[i]);
    }
    assert forall|i: int, j: int| 0 <= i < j < pls.len() implies (#[trigger] pls[i]).box_idx
        != (#[trigger] pls[j]).box_idx by {
        assert(precedes(keys, order[i] as int, order[j] as int));
        assert(order[i] == pls[i].box_idx && order[j] == pls[j].box_idx);
    }
}

/// Within a bin, no two placements share volume.
pub proof fn lemma_bins_apart(items: Seq<Cuboid>, bin: Cuboid, tp: RotationType, keys: Seq<u32>, sol: InnerSolution)
    requires
        valid_solution(items, bin, tp, keys, sol),
    ensures
        forall|i: int, j: int|
            0 <= i < sol.placements@.len() && 0 <= j < sol.placements@.len() && i != j
                && (#[trigger] sol.placements@[i]).bin_no == (#[trigger] sol.placements@[j]).bin_no
                ==> !sol.placements@[i].space.overlaps(sol.placements@[j].space),
{
    let pls = sol.placements@;
    assert forall|i: int, j: int|
        0 <= i < pls.len() && 0 <= j < pls.len() && i != j && (#[trigger] pls[i]).bin_no == (
        #[trigger] pls[j]).bin_no implies !pls[i].space.overlaps(pls[j].space) by {
        if i > j {
            assert(!pls[j].space.overlaps(pls[i].space));
        }
    }
}

/// Every placement lies between the origin and the bin's upper-right corner on all three axes.
pub proof fn lemma_inside_bin(items: Seq<Cuboid>, bin: Cuboid, tp: RotationType, keys: Seq<u32>, sol: InnerSolution)
    requires
        valid_solution(items, bin, tp, keys, sol),
    ensures
        forall|i: int|
            0 <= i < sol.placements@.len() ==> {
                let s = (#[trigger] sol.placements@[i]).space;
                &&& 0 <= s.bottom_left.x && s.upper_right.x <= bin.width
                &&& 0 <= s.bottom_left.y && s.upper_right.y <= bin.height
                &&& 0 <= s.bottom_left.z && s.upper_right.z <= bin.depth
            },
{
    let pls = sol.placements@;
    assert forall|i: int| 0 <= i < pls.len() implies {
        let s = (#[trigger] pls[i]).space;
        &&& 0 <= s.bottom_left.x && s.upper_right.x <= bin.width
        &&& 0 <= s.bottom_left.y && s.upper_right.y <= bin.height
        &&& 0 <= s.bottom_left.z && s.upper_right.z <= bin.depth
    } by {
        assert(placed_well(items, bin, tp, sol.num_bins as int, pls[i]));
    }
}

/// The total volume of the placements.
pub open spec fn placed_volume(pls: Seq<InnerPlacement>) -> int
    decreases pls.len(),
{
    if pls.len() == 0 {
        0
    } else {
        placed_volume(pls.drop_last()) + pls.last().space.vol()
    }
}

/// The total volume of the items.
pub open spec fn total_volume(items: Seq<Cuboid>) -> int
    decreases items.len(),
{
    if items.len() == 0 {
        0
    } else {
        total_volume(items.drop_last()) + items.last().vol()
    }
}

proof fn lemma_placed_volume_remove(pls: Seq<InnerPlacement>, j: int)
    requires
        0 <= j < pls.len(),
    ensures
        placed_volume(pls) == placed_volume(pls.remove(j)) + pls[j].space.vol(),
    decreases pls.len(),
{
    if j == pls.len() - 1 {
        assert(pls.remove(j) =~= pls.drop_last());
    } else {
        lemma_placed_volume_remove(pls.drop_last(), j);
        assert(pls.remove(j).drop_last() =~= pls.drop_last().remove(j));
        assert(pls.remove(j).last() == pls.last());
    }
}

/// Placements that hold each item once, each with the volume of its item, hold the items'
/// total volume.
proof fn lemma_reindex(pls: Seq<InnerPlacement>, items: Seq<Cuboid>)
    requires
        pls.len() == items.len(),
        forall|i: int| 0 <= i < pls.len() ==> (#[trigger] pls[i]).box_idx < items.len(),
        forall|i: int| 0 <= i < pls.len() ==> (#[trigger] pls[i]).space.vol() == items[pls[i].box_idx as int].vol(),
        forall|i: int, j: int| 0 <= i < j < pls.len() ==> (#[trigger] pls[i]).box_idx != (#[trigger] pls[j]).box_idx,
        forall|b: int| 0 <= b < items.len() ==> #[trigger] holds_item(pls, b),
    ensures
        placed_volume(pls) == total_volume(items),
    decreases items.len(),
{
    let n = items.len() as int;
    if n > 0 {
        assert(holds_item(pls, n - 1));
        let j = choose|i: int| 0 <= i < pls.len() && #[trigger] pls[i].box_idx == n - 1;
        let rest = pls.remove(j);
        let head = items.drop_last();
        lemma_placed_volume_remove(pls, j);
        assert forall|i: int| 0 <= i < rest.len() implies (#[trigger] rest[i]).box_idx < head.len() by {
            if i < j {
                assert(rest[i] == pls[i]);
            } else {
                assert(rest[i] == pls[i + 1]);
            }
        }
        assert forall|i: int| 0 <= i < rest.len() implies (#[trigger] rest[i]).space.vol() == head[rest[i].box_idx as int].vol() by {
            if i < j {
                assert(rest[i] == pls[i]);
            } else {
                assert(rest[i] == pls[i + 1]);
            }
        }
        assert forall|a: int, b: int| 0 <= a < b < rest.len() implies (#[trigger] rest[a]).box_idx != (#[trigger] rest[b]).box_idx by {
            let x = if a < j { a } else { a + 1 };
            let y = if b < j { b } else { b + 1 };
            assert(rest[a] == pls[x] && rest[b] == pls[y]);
        }
        assert forall|b: int| 0 <= b < head.len() implies #[trigger] holds_item(rest, b) by {
            assert(holds_item(pls, b));
            let i = choose|i: int| 0 <= i < pls.len() && #[trigger] pls[i].box_idx == b;
            if i < j {
                assert(rest[i] == pls[i]);
            } else {
                assert(rest[i - 1] == pls[i]);
            }
        }
        lemma_reindex(rest, head);
    }
}

/// The placed volumes add up to the volumes of the items.
pub proof fn lemma_volume_conserved(
    items: Seq<Cuboid>,
    bin: Cuboid,
    tp: RotationType,
    keys: Seq<u32>,
    sol: InnerSolution,
)
    requires
        valid_solution(items, bin, tp, keys, sol),
    ensures
        placed_volume(sol.placements@) == total_volume(items),
{
    let pls = sol.placements@;
    lemma_each_item_once(items, bin, tp, keys, sol);
    assert forall|i: int| 0 <= i < pls.len() implies (#[trigger] pls[i]).space.vol() == items[pls[i].box_idx as int].vol() by {
        assert(placed_well(items, bin, tp, sol.num_bins as int, pls[i]));
        let c = items[pls[i].box_idx as int];
        let e = extent_of(pls[i].space);
        geom::lemma_orientations(tp, c);
        let k = choose|k: int| 0 <= k < tp.orientations_of(c).len() && tp.orientations_of(c)[k] == e;
        geom::lemma_rotation_volume(e, c);
    }
    lemma_reindex(pls, items);
}

proof fn lemma_packing_order_prefix(keys: Seq<u32>, n: int, o1: Seq<usize>, o2: Seq<usize>, i: int)
    requires
        is_packing_order(keys, n, o1),
        is_packing_order(keys, n, o2),
        0 <= i <= n,
    ensures
        forall|k: int| 0 <= k < i ==> o1[k] == o2[k],
    decreases i,
{
    if i > 0 {
        lemma_packing_order_prefix(keys, n, o1, o2, i - 1);
        let k = i - 1;
        let (a, b) = (o1[k], o2[k]);
        if a != b {
            assert(o2.contains(a));
            let j = choose|j: int| 0 <= j < o2.len() && o2[j] == a;
            assert(o1.contains(b));
            let j1 = choose|j: int| 0 <= j < o1.len() && o1[j] == b;
            if j < k {
                assert(o1[j] == a);
                assert(precedes(keys, o1[j] as int, o1[k] as int));
            }
            if j1 < k {
                assert(o2[j1] == b);
                assert(precedes(keys, o2[j1] as int, o2[k] as int));
            }
            assert(precedes(keys, o2[k] as int, o2[j] as int));
            assert(precedes(keys, o1[k] as int, o1[j1] as int));
        }
    }
}

/// Each chromosome has one packing order.
pub proof fn lemma_packing_order_unique(keys: Seq<u32>, n: int, o1: Seq<usize>, o2: Seq<usize>)
    requires
        is_packing_order(keys, n, o1),
        is_packing_order(keys, n, o2),
    ensures
        o1 == o2,
{
    lemma_packing_order_prefix(keys, n, o1, o2, n);
    assert(o1 =~= o2);
}

/// Decoding is deterministic: two decodings of one chromosome are the same solution.
pub proof fn lemma_decoding_deterministic(
    items: Seq<Cuboid>,
    bin: Cuboid,
    tp: RotationType,
    keys: Seq<u32>,
    s1: InnerSolution,
    s2: InnerSolution,
)
    requires
        decodes_to(items, bin, tp, keys, s1),
        decodes_to(items, bin, tp, keys, s2),
    ensures
        s1.placements@ == s2.placements@,
        s1.num_bins == s2.num_bins,
        s1.least_load == s2.least_load,
{
    lemma_packing_order_unique(keys, items.len() as int, order_of(s1.placements@), order_of(s2.placements@));
}

} // verus!
