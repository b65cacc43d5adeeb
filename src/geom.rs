//! Points, cuboids and axis-aligned spaces.
//!
//! Axis convention: `x` carries the width, `y` the height and `z` the depth.

use vstd::prelude::*;

verus! {

/// A point with integer coordinates in bin-local space.
#[derive(PartialEq, Eq, Structural, Clone, Copy, Debug)]
pub struct Point {
    pub x: i32,
    pub y: i32,
    pub z: i32,
}

impl Point {
    /// Componentwise `<=`.
    pub open spec fn le(self, other: Point) -> bool {
        self.x <= other.x && self.y <= other.y && self.z <= other.z
    }

    /// Squared Euclidean distance between two points.
    pub open spec fn dist2(self, other: Point) -> int {
        (self.x - other.x) * (self.x - other.x) + (self.y - other.y) * (self.y - other.y) + (
        self.z - other.z) * (self.z - other.z)
    }

    pub fn new(x: i32, y: i32, z: i32) -> (r: Point)
        ensures
            r == (Point { x, y, z }),
    {
        Point { x, y, z }
    }

    pub fn distance2_from(&self, other: &Point) -> (r: i128)
        ensures
            r == self.dist2(*other),
    {
        let dx = self.x as i128 - other.x as i128;
        let dy = self.y as i128 - other.y as i128;
        let dz = self.z as i128 - other.z as i128;
        proof {
            lemma_square_below(dx as int);
            lemma_square_below(dy as int);
            lemma_square_below(dz as int);
        }
        dx * dx + dy * dy + dz * dz
    }

    fn scalar_less_than(&self, other: &Point) -> (r: bool)
        ensures
            r == self.le(*other),
    {
        self.x <= other.x && self.y <= other.y && self.z <= other.z
    }
}

proof fn lemma_square_below(a: int)
    requires
        -0x1_0000_0000 <= a <= 0x1_0000_0000,
    ensures
        0 <= a * a <= 0x1_0000_0000_0000_0000,
{
    assert(0 <= a * a <= 0x1_0000_0000_0000_0000) by (nonlinear_arith)
        requires
            -0x1_0000_0000 <= a <= 0x1_0000_0000,
    ;
}

/// A squared distance is never negative.
pub proof fn lemma_dist2_nonneg(a: Point, b: Point)
    ensures
        a.dist2(b) >= 0,
{
    let (dx, dy, dz) = (a.x - b.x, a.y - b.y, a.z - b.z);
    assert(dx * dx + dy * dy + dz * dz >= 0) by (nonlinear_arith);
}

/// The size of an item or a bin: `width` along `x`, `depth` along `z`, `height` along `y`.
#[derive(PartialEq, Eq, Structural, Clone, Copy, Debug)]
pub struct Cuboid {
    pub width: i32,
    pub depth: i32,
    pub height: i32,
}

impl Cuboid {
    /// All three extents are positive.
    pub open spec fn wf(self) -> bool {
        0 < self.width && 0 < self.depth && 0 < self.height
    }

    pub open spec fn vol(self) -> int {
        self.width * self.depth * self.height
    }

    pub open spec fn smallest(self) -> int {
        min3(self.width as int, self.depth as int, self.height as int)
    }

    /// Each extent is at most the matching extent of `s`.
    pub open spec fn fits(self, s: Space) -> bool {
        self.width <= s.w() && self.height <= s.h() && self.depth <= s.d()
    }

    pub fn new(width: i32, depth: i32, height: i32) -> (r: Cuboid)
        ensures
            r == (Cuboid { width, depth, height }),
    {
        Cuboid { width, depth, height }
    }

    pub fn volume(&self) -> (r: i128)
        ensures
            r == self.vol(),
    {
        let w = self.width as i128;
        let d = self.depth as i128;
        let h = self.height as i128;
        proof {
            lemma_product_bound(w as int, d as int, h as int);
        }
        w * d * h
    }

    pub fn can_fit_in(&self, space: &Space) -> (r: bool)
        ensures
            r == self.fits(*space),
    {
        let sw = space.upper_right.x as i64 - space.bottom_left.x as i64;
        let sh = space.upper_right.y as i64 - space.bottom_left.y as i64;
        let sd = space.upper_right.z as i64 - space.bottom_left.z as i64;
        sw >= self.width as i64 && sh >= self.height as i64 && sd >= self.depth as i64
    }
}

pub open spec fn min3(a: int, b: int, c: int) -> int {
    if a <= b && a <= c {
        a
    } else if b <= c {
        b
    } else {
        c
    }
}

proof fn lemma_product_bound(a: int, b: int, c: int)
    requires
        -0x1_0000_0000 <= a <= 0x1_0000_0000,
        -0x1_0000_0000 <= b <= 0x1_0000_0000,
        -0x1_0000_0000 <= c <= 0x1_0000_0000,
    ensures
        -0x1_0000_0000_0000_0000 <= a * b <= 0x1_0000_0000_0000_0000,
        -0x1_0000_0000_0000_0000_0000_0000 <= a * b * c <= 0x1_0000_0000_0000_0000_0000_0000,
{
    assert(-0x1_0000_0000_0000_0000 <= a * b <= 0x1_0000_0000_0000_0000) by (nonlinear_arith)
        requires
            -0x1_0000_0000 <= a <= 0x1_0000_0000,
            -0x1_0000_0000 <= b <= 0x1_0000_0000,
    ;
    let ab = a * b;
    assert(-0x1_0000_0000_0000_0000_0000_0000 <= ab * c <= 0x1_0000_0000_0000_0000_0000_0000)
        by (nonlinear_arith)
        requires
            -0x1_0000_0000_0000_0000 <= ab <= 0x1_0000_0000_0000_0000,
            -0x1_0000_0000 <= c <= 0x1_0000_0000,
    ;
}

/// Which rotations an item may take.
#[derive(PartialEq, Eq, Structural, Clone, Copy, Debug)]
pub enum RotationType {
    /// Any of the six axis permutations.
    ThreeDimension,
    /// Only the two that keep the height vertical.
    TwoDimension,
}

pub open spec fn cuboid3(width: i32, depth: i32, height: i32) -> Cuboid {
    Cuboid { width, depth, height }
}

impl RotationType {
    /// The distinct orientations of `c`, in canonical order: first the ones lying flat, then
    /// (in three dimensions) those standing on the width and on the depth.
    pub open spec fn orientations_of(self, c: Cuboid) -> Seq<Cuboid> {
        let (w, d, h) = (c.width, c.depth, c.height);
        let flat = seq![cuboid3(w, d, h)] + if w != d {
            seq![cuboid3(d, w, h)]
        } else {
            Seq::empty()
        };
        let on_depth = if h != d {
            seq![cuboid3(w, h, d)] + if h != w {
                seq![cuboid3(h, w, d)]
            } else {
                Seq::empty()
            }
        } else {
            Seq::empty()
        };
        let on_width = if w != d && h != w {
            seq![cuboid3(h, d, w)] + if h != d {
                seq![cuboid3(d, h, w)]
            } else {
                Seq::empty()
            }
        } else {
            Seq::empty()
        };
        match self {
            RotationType::TwoDimension => flat,
            RotationType::ThreeDimension => flat + on_depth + on_width,
        }
    }

    pub fn orientations_for(self, rect: &Cuboid) -> (r: Vec<Cuboid>)
        ensures
            r@ == self.orientations_of(*rect),
    {
        let only_2d = match self {
            RotationType::TwoDimension => true,
            RotationType::ThreeDimension => false,
        };
        let (w, d, h) = (rect.width, rect.depth, rect.height);
        let mut flat: Vec<Cuboid> = Vec::new();
        flat.push(Cuboid::new(w, d, h));
        if w != d {
            flat.push(Cuboid::new(d, w, h));
        }
        if only_2d {
            assert(flat@ =~= self.orientations_of(*rect));
            return flat;
        }
        let mut on_depth: Vec<Cuboid> = Vec::new();
        if h != d {
            on_depth.push(Cuboid::new(w, h, d));
            if h != w {
                on_depth.push(Cuboid::new(h, w, d));
            }
        }
        let mut on_width: Vec<Cuboid> = Vec::new();
        if w != d && h != w {
            on_width.push(Cuboid::new(h, d, w));
            if h != d {
                on_width.push(Cuboid::new(d, h, w));
            }
        }
        flat.append(&mut on_depth);
        flat.append(&mut on_width);
        assert(flat@ =~= self.orientations_of(*rect));
        flat
    }
}

/// `o` is `c` turned about the axes: its extents are those of `c` in some order.
pub open spec fn is_rotation_of(o: Cuboid, c: Cuboid) -> bool {
    let (w, d, h) = (c.width, c.depth, c.height);
    ||| o == cuboid3(w, d, h)
    ||| o == cuboid3(d, w, h)
    ||| o == cuboid3(w, h, d)
    ||| o == cuboid3(h, w, d)
    ||| o == cuboid3(h, d, w)
    ||| o == cuboid3(d, h, w)
}

/// A rotated cuboid keeps its volume.
pub proof fn lemma_rotation_volume(o: Cuboid, c: Cuboid)
    requires
        is_rotation_of(o, c),
    ensures
        o.vol() == c.vol(),
{
    let (w, d, h) = (c.width as int, c.depth as int, c.height as int);
    let (a, b, e) = (o.width as int, o.depth as int, o.height as int);
    assert(a * b * e == w * d * h) by (nonlinear_arith)
        requires
            (a == w && b == d && e == h) || (a == d && b == w && e == h) || (a == w && b == h
                && e == d) || (a == h && b == w && e == d) || (a == h && b == d && e == w) || (
            a == d && b == h && e == w),
    ;
}

/// Every orientation is a permutation of the item's extents, no orientation is listed twice,
/// two-dimensional rotation keeps the height, and three-dimensional rotation lists every
/// permutation: one for a cube, three where exactly two extents agree, six where all differ.
pub proof fn lemma_orientations(tp: RotationType, c: Cuboid)
    ensures
        forall|i: int|
            0 <= i < tp.orientations_of(c).len() ==> #[trigger] is_rotation_of(
                tp.orientations_of(c)[i],
                c,
            ) && tp.orientations_of(c)[i].vol() == c.vol(),
        forall|i: int, j: int|
            0 <= i < j < tp.orientations_of(c).len() ==> tp.orientations_of(c)[i]
                != tp.orientations_of(c)[j],
        tp == RotationType::TwoDimension ==> forall|i: int|
            0 <= i < tp.orientations_of(c).len() ==> (#[trigger] tp.orientations_of(c)[i]).height
                == c.height,
        tp == RotationType::ThreeDimension ==> {
            &&& (c.width == c.depth && c.depth == c.height) ==> tp.orientations_of(c).len() == 1
            &&& (c.width == c.depth && c.depth != c.height) ==> tp.orientations_of(c).len() == 3
            &&& (c.width == c.height && c.depth != c.height) ==> tp.orientations_of(c).len() == 3
            &&& (c.depth == c.height && c.width != c.height) ==> tp.orientations_of(c).len() == 3
            &&& (c.width != c.depth && c.depth != c.height && c.width != c.height)
                ==> tp.orientations_of(c).len() == 6
        },
        tp == RotationType::ThreeDimension ==> forall|o: Cuboid|
            #[trigger] is_rotation_of(o, c) ==> tp.orientations_of(c).contains(o),
        tp == RotationType::TwoDimension ==> tp.orientations_of(c).len() == if c.width
            == c.depth {
            1int
        } else {
            2int
        },
{
    let os = tp.orientations_of(c);
    assert forall|i: int| 0 <= i < os.len() implies #[trigger] is_rotation_of(os[i], c)
        && os[i].vol() == c.vol() by {
        lemma_rotation_volume(os[i], c);
    }
    if tp == RotationType::ThreeDimension {
        assert forall|o: Cuboid| #[trigger] is_rotation_of(o, c) implies os.contains(o) by {
            let (w, d, h) = (c.width, c.depth, c.height);
            let flat = seq![cuboid3(w, d, h)] + if w != d {
                seq![cuboid3(d, w, h)]
            } else {
                Seq::<Cuboid>::empty()
            };
            let on_depth = if h != d {
                seq![cuboid3(w, h, d)] + if h != w {
                    seq![cuboid3(h, w, d)]
                } else {
                    Seq::<Cuboid>::empty()
                }
            } else {
                Seq::<Cuboid>::empty()
            };
            let on_width = if w != d && h != w {
                seq![cuboid3(h, d, w)] + if h != d {
                    seq![cuboid3(d, h, w)]
                } else {
                    Seq::<Cuboid>::empty()
                }
            } else {
                Seq::<Cuboid>::empty()
            };
            assert(os == flat + on_depth + on_width);
            let fl = flat.len() as int;
            let dl = on_depth.len() as int;
            assert(os[0] == flat[0]);
            if fl == 2 {
                assert(os[1] == flat[1]);
            }
            if dl >= 1 {
                assert(os[fl] == on_depth[0]);
            }
            if dl == 2 {
                assert(os[fl + 1] == on_depth[1]);
            }
            if on_width.len() >= 1 {
                assert(os[fl + dl] == on_width[0]);
            }
            if on_width.len() == 2 {
                assert(os[fl + dl + 1] == on_width[1]);
            }
        }
    }
}

/// An axis-aligned box `[bottom_left, upper_right]`.
#[derive(PartialEq, Eq, Structural, Clone, Copy, Debug)]
pub struct Space {
    pub bottom_left: Point,
    pub upper_right: Point,
}

pub open spec fn max2(a: int, b: int) -> int {
    if a >= b {
        a
    } else {
        b
    }
}

pub open spec fn min2(a: int, b: int) -> int {
    if a <= b {
        a
    } else {
        b
    }
}

pub open spec fn point3(x: i32, y: i32, z: i32) -> Point {
    Point { x, y, z }
}

impl Space {
    /// Extent along `x`.
    pub open spec fn w(self) -> int {
        self.upper_right.x - self.bottom_left.x
    }

    /// Extent along `y`.
    pub open spec fn h(self) -> int {
        self.upper_right.y - self.bottom_left.y
    }

    /// Extent along `z`.
    pub open spec fn d(self) -> int {
        self.upper_right.z - self.bottom_left.z
    }

    /// The bottom-left corner is componentwise below the upper-right one.
    pub open spec fn wf(self) -> bool {
        self.bottom_left.le(self.upper_right)
    }

    /// All three extents are positive.
    pub open spec fn solid(self) -> bool {
        self.w() > 0 && self.h() > 0 && self.d() > 0
    }

    pub open spec fn vol(self) -> int {
        self.w() * self.d() * self.h()
    }

    pub open spec fn min_extent(self) -> int {
        min3(self.w(), self.d(), self.h())
    }

    /// `other` lies inside `self`, boundaries included.
    pub open spec fn encloses(self, other: Space) -> bool {
        self.bottom_left.le(other.bottom_left) && other.upper_right.le(self.upper_right)
    }

    /// The closed boxes meet (touching counts).
    pub open spec fn touches(self, other: Space) -> bool {
        self.bottom_left.le(other.upper_right) && other.bottom_left.le(self.upper_right)
    }

    /// The interiors share volume.
    pub open spec fn overlaps(self, other: Space) -> bool {
        &&& max2(self.bottom_left.x as int, other.bottom_left.x as int) < min2(
            self.upper_right.x as int,
            other.upper_right.x as int,
        )
        &&& max2(self.bottom_left.y as int, other.bottom_left.y as int) < min2(
            self.upper_right.y as int,
            other.upper_right.y as int,
        )
        &&& max2(self.bottom_left.z as int, other.bottom_left.z as int) < min2(
            self.upper_right.z as int,
            other.upper_right.z as int,
        )
    }

    /// `p` lies in the closed box.
    pub open spec fn holds(self, p: Point) -> bool {
        self.bottom_left.le(p) && p.le(self.upper_right)
    }

    /// The box of size `c` whose bottom-left corner is `origin`.
    pub open spec fn placed(origin: Point, c: Cuboid) -> Space {
        Space {
            bottom_left: origin,
            upper_right: point3(
                (origin.x + c.width) as i32,
                (origin.y + c.height) as i32,
                (origin.z + c.depth) as i32,
            ),
        }
    }

    /// `origin + c` stays within `i32` on every axis.
    pub open spec fn placeable(origin: Point, c: Cuboid) -> bool {
        i32::MIN <= origin.x + c.width <= i32::MAX && i32::MIN <= origin.y + c.height <= i32::MAX
            && i32::MIN <= origin.z + c.depth <= i32::MAX
    }

    /// The common part of two boxes.
    pub open spec fn clip(self, other: Space) -> Space {
        Space {
            bottom_left: point3(
                max2(self.bottom_left.x as int, other.bottom_left.x as int) as i32,
                max2(self.bottom_left.y as int, other.bottom_left.y as int) as i32,
                max2(self.bottom_left.z as int, other.bottom_left.z as int) as i32,
            ),
            upper_right: point3(
                min2(self.upper_right.x as int, other.upper_right.x as int) as i32,
                min2(self.upper_right.y as int, other.upper_right.y as int) as i32,
                min2(self.upper_right.z as int, other.upper_right.z as int) as i32,
            ),
        }
    }

    /// The six slabs of `self` that lie beyond each face of `inner`: left, right, bottom, top,
    /// near, far.
    pub open spec fn pieces(self, inner: Space) -> Seq<Space> {
        let (sb, su, ob, ou) = (
            self.bottom_left,
            self.upper_right,
            inner.bottom_left,
            inner.upper_right,
        );
        seq![
            Space { bottom_left: sb, upper_right: point3(ob.x, su.y, su.z) },
            Space { bottom_left: point3(ou.x, sb.y, sb.z), upper_right: su },
            Space { bottom_left: sb, upper_right: point3(su.x, ob.y, su.z) },
            Space { bottom_left: point3(sb.x, ou.y, sb.z), upper_right: su },
            Space { bottom_left: sb, upper_right: point3(su.x, su.y, ob.z) },
            Space { bottom_left: point3(sb.x, sb.y, ou.z), upper_right: su },
        ]
    }

    pub fn new(bottom_left: Point, upper_right: Point) -> (r: Space)
        ensures
            r == (Space { bottom_left, upper_right }),
    {
        Space { bottom_left, upper_right }
    }

    pub fn from_placement(origin: &Point, rect: &Cuboid) -> (r: Space)
        requires
            Space::placeable(*origin, *rect),
        ensures
            r == Space::placed(*origin, *rect),
    {
        let x = origin.x + rect.width;
        let y = origin.y + rect.height;
        let z = origin.z + rect.depth;
        Space { bottom_left: *origin, upper_right: Point::new(x, y, z) }
    }

    pub fn origin(&self) -> (r: &Point)
        ensures
            *r == self.bottom_left,
    {
        &self.bottom_left
    }

    pub fn width(&self) -> (r: i32)
        requires
            i32::MIN <= self.w() <= i32::MAX,
        ensures
            r == self.w(),
    {
        self.upper_right.x - self.bottom_left.x
    }

    pub fn depth(&self) -> (r: i32)
        requires
            i32::MIN <= self.d() <= i32::MAX,
        ensures
            r == self.d(),
    {
        self.upper_right.z - self.bottom_left.z
    }

    pub fn height(&self) -> (r: i32)
        requires
            i32::MIN <= self.h() <= i32::MAX,
        ensures
            r == self.h(),
    {
        self.upper_right.y - self.bottom_left.y
    }

    pub fn volume(&self) -> (r: i128)
        ensures
            r == self.vol(),
    {
        let w = self.upper_right.x as i128 - self.bottom_left.x as i128;
        let h = self.upper_right.y as i128 - self.bottom_left.y as i128;
        let d = self.upper_right.z as i128 - self.bottom_left.z as i128;
        proof {
            lemma_product_bound(w as int, d as int, h as int);
        }
        w * d * h
    }

    pub fn contains(&self, other: &Space) -> (r: bool)
        ensures
            r == self.encloses(*other),
    {
        self.bottom_left.scalar_less_than(&other.bottom_left) && other.upper_right.scalar_less_than(
            &self.upper_right,
        )
    }

    pub fn intersects(&self, other: &Space) -> (r: bool)
        ensures
            r == self.touches(*other),
    {
        self.bottom_left.scalar_less_than(&other.upper_right) && other.bottom_left.scalar_less_than(
            &self.upper_right,
        )
    }

    /// The intersection of the two boxes (the part of `self` that `other` covers).
    pub fn union(&self, other: &Space) -> (r: Space)
        ensures
            r == self.clip(*other),
    {
        let bx = if self.bottom_left.x >= other.bottom_left.x { self.bottom_left.x } else { other.bottom_left.x };
        let by = if self.bottom_left.y >= other.bottom_left.y { self.bottom_left.y } else { other.bottom_left.y };
        let bz = if self.bottom_left.z >= other.bottom_left.z { self.bottom_left.z } else { other.bottom_left.z };
        let ux = if self.upper_right.x <= other.upper_right.x { self.upper_right.x } else { other.upper_right.x };
        let uy = if self.upper_right.y <= other.upper_right.y { self.upper_right.y } else { other.upper_right.y };
        let uz = if self.upper_right.z <= other.upper_right.z { self.upper_right.z } else { other.upper_right.z };
        Space::new(Point::new(bx, by, bz), Point::new(ux, uy, uz))
    }
}

/// `intersects` does not depend on the order of its arguments.
pub proof fn lemma_intersects_symmetric(a: Space, b: Space)
    ensures
        a.touches(b) == b.touches(a),
{
}

/// A candidate remainder is kept when it has volume, its smallest extent is at least
/// `min_dimension` and its volume at least `min_volume`.
pub open spec fn survives(s: Space, min_dimension: int, min_volume: int) -> bool {
    s.solid() && s.min_extent() >= min_dimension && s.vol() >= min_volume
}

/// The elements of `s` that survive, in order.
pub open spec fn prune(s: Seq<Space>, min_dimension: int, min_volume: int) -> Seq<Space>
    decreases s.len(),
{
    if s.len() == 0 {
        Seq::empty()
    } else {
        let rest = prune(s.drop_last(), min_dimension, min_volume);
        if survives(s.last(), min_dimension, min_volume) {
            rest.push(s.last())
        } else {
            rest
        }
    }
}

/// What holds of every element of `s` holds of every survivor, and every survivor survives.
pub proof fn lemma_prune(s: Seq<Space>, min_dimension: int, min_volume: int, pred: spec_fn(Space) -> bool)
    requires
        forall|k: int| 0 <= k < s.len() ==> pred(#[trigger] s[k]),
    ensures
        forall|i: int|
            0 <= i < prune(s, min_dimension, min_volume).len() ==> pred(
                #[trigger] prune(s, min_dimension, min_volume)[i],
            ) && survives(prune(s, min_dimension, min_volume)[i], min_dimension, min_volume),
    decreases s.len(),
{
    if s.len() > 0 {
        let t = s.drop_last();
        assert forall|k: int| 0 <= k < t.len() implies pred(#[trigger] t[k]) by {
            assert(t[k] == s[k]);
        }
        lemma_prune(t, min_dimension, min_volume, pred);
        assert(pred(s[s.len() - 1]));
        let rest = prune(t, min_dimension, min_volume);
        let r = prune(s, min_dimension, min_volume);
        assert forall|i: int| 0 <= i < r.len() implies pred(#[trigger] r[i]) && survives(
            r[i],
            min_dimension,
            min_volume,
        ) by {
            if i < rest.len() {
                assert(r[i] == rest[i]);
            }
        }
    }
}

/// Whether `s` survives the pruning filter.
pub fn keeps(s: &Space, min_dimension: i32, min_volume: i128) -> (r: bool)
    ensures
        r == survives(*s, min_dimension as int, min_volume as int),
{
    let w = s.upper_right.x as i64 - s.bottom_left.x as i64;
    let h = s.upper_right.y as i64 - s.bottom_left.y as i64;
    let d = s.upper_right.z as i64 - s.bottom_left.z as i64;
    if w <= 0 || h <= 0 || d <= 0 {
        return false;
    }
    let smallest = if w <= d && w <= h {
        w
    } else if d <= h {
        d
    } else {
        h
    };
    smallest >= min_dimension as i64 && s.volume() >= min_volume
}

impl Space {
    /// The slabs of `self` beyond each face of `other` that survive the pruning filter, in
    /// the order left, right, bottom, top, near, far.
    pub fn difference_process(&self, other: &Space, min_dimension: i32, min_volume: i128) -> (r:
        Vec<Space>)
        ensures
            r@ == prune(self.pieces(*other), min_dimension as int, min_volume as int),
    {
        let (sb, su, ob, ou) = (self.bottom_left, self.upper_right, other.bottom_left, other.upper_right);
        let pieces = vec![
            Space::new(sb, Point::new(ob.x, su.y, su.z)),
            Space::new(Point::new(ou.x, sb.y, sb.z), su),
            Space::new(sb, Point::new(su.x, ob.y, su.z)),
            Space::new(Point::new(sb.x, ou.y, sb.z), su),
            Space::new(sb, Point::new(su.x, su.y, ob.z)),
            Space::new(Point::new(sb.x, sb.y, ou.z), su),
        ];
        assert(pieces@ =~= self.pieces(*other));
        let mut r: Vec<Space> = Vec::new();
        let mut i: usize = 0;
        while i < pieces.len()
            invariant
                i <= pieces.len(),
                pieces@ == self.pieces(*other),
                r@ == prune(pieces@.take(i as int), min_dimension as int, min_volume as int),
            decreases pieces.len() - i,
        {
            assert(pieces@.take(i as int + 1).drop_last() =~= pieces@.take(i as int));
            if keeps(&pieces[i], min_dimension, min_volume) {
                r.push(pieces[i]);
            }
            i += 1;
        }
        assert(pieces@.take(6) =~= pieces@);
        r
    }
}

/// For a space `s` and a box `p` inside it, each of the six slabs lies inside `s` and shares no
/// volume with `p`; slabs cut along the same axis share no volume with each other; and every
/// point of `s` lies in `p` or in one of the slabs.
pub proof fn lemma_difference(s: Space, p: Space)
    requires
        s.wf(),
        p.wf(),
        s.encloses(p),
    ensures
        s.pieces(p).len() == 6,
        forall|k: int|
            0 <= k < 6 ==> s.encloses(#[trigger] s.pieces(p)[k]) && s.pieces(p)[k].wf()
                && !s.pieces(p)[k].overlaps(p),
        forall|i: int, j: int|
            0 <= i < 6 && 0 <= j < 6 && i != j && i / 2 == j / 2 ==> !(#[trigger] s.pieces(
                p,
            )[i]).overlaps(#[trigger] s.pieces(p)[j]),
        forall|q: Point|
            #[trigger] s.holds(q) ==> p.holds(q) || exists|k: int|
                0 <= k < 6 && #[trigger] s.pieces(p)[k].holds(q),
{
    let ps = s.pieces(p);
    assert forall|q: Point| #[trigger] s.holds(q) implies p.holds(q) || exists|k: int|
        0 <= k < 6 && #[trigger] ps[k].holds(q) by {
        if !p.holds(q) {
            if q.x < p.bottom_left.x {
                assert(ps[0].holds(q));
            } else if q.x > p.upper_right.x {
                assert(ps[1].holds(q));
            } else if q.y < p.bottom_left.y {
                assert(ps[2].holds(q));
            } else if q.y > p.upper_right.y {
                assert(ps[3].holds(q));
            } else if q.z < p.bottom_left.z {
                assert(ps[4].holds(q));
            } else {
                assert(ps[5].holds(q));
            }
        }
    }
}

/// The six slabs share no volume with each other whenever no two slabs cut along different
/// axes both have volume (for instance when `p` spans `s` on two of the three axes).
pub proof fn lemma_difference_disjoint(s: Space, p: Space)
    requires
        s.wf(),
        p.wf(),
        s.encloses(p),
        forall|i: int, j: int|
            0 <= i < 6 && 0 <= j < 6 && i / 2 != j / 2 ==> !((#[trigger] s.pieces(p)[i]).solid()
                && (#[trigger] s.pieces(p)[j]).solid()),
    ensures
        forall|i: int, j: int|
            0 <= i < 6 && 0 <= j < 6 && i != j ==> !(#[trigger] s.pieces(p)[i]).overlaps(
                #[trigger] s.pieces(p)[j],
            ),
{
    lemma_difference(s, p);
    assert forall|i: int, j: int| 0 <= i < 6 && 0 <= j < 6 && i != j implies !(#[trigger] s.pieces(
        p,
    )[i]).overlaps(#[trigger] s.pieces(p)[j]) by {
        if i / 2 != j / 2 {
            let (a, b) = (s.pieces(p)[i], s.pieces(p)[j]);
            if a.overlaps(b) {
                assert(a.solid() && b.solid());
            }
        }
    }
}

/// A box that shares volume with `p` and lies in `e` shares volume with the part of `p`
/// inside `e`.
pub proof fn lemma_overlap_within(a: Space, e: Space, p: Space)
    requires
        e.encloses(a),
        a.overlaps(p),
    ensures
        a.overlaps(e.clip(p)),
{
}

/// A box inside `e` shares no volume with anything that `e` shares no volume with.
pub proof fn lemma_disjoint_within(a: Space, e: Space, q: Space)
    requires
        e.encloses(a),
        !e.overlaps(q),
    ensures
        !a.overlaps(q),
{
}

/// Boxes that do not touch share no volume.
pub proof fn lemma_apart_disjoint(a: Space, b: Space)
    requires
        !a.touches(b),
    ensures
        !a.overlaps(b),
{
}

/// An item size that may take any of the six axis permutations.
#[derive(PartialEq, Eq, Structural, Clone, Copy, Debug)]
pub struct Rectangle {
    pub width: i32,
    pub depth: i32,
    pub height: i32,
}

impl Rectangle {
    pub open spec fn as_cuboid(self) -> Cuboid {
        cuboid3(self.width, self.depth, self.height)
    }

    pub fn new(width: i32, depth: i32, height: i32) -> (r: Rectangle)
        ensures
            r == (Rectangle { width, depth, height }),
    {
        Rectangle { width, depth, height }
    }

    /// The distinct orientations, in the canonical order of three-dimensional rotation.
    pub fn orientations(&self) -> (r: Vec<Rectangle>)
        ensures
            r@.len() == RotationType::ThreeDimension.orientations_of(self.as_cuboid()).len(),
            forall|i: int|
                0 <= i < r@.len() ==> (#[trigger] r@[i]).as_cuboid()
                    == RotationType::ThreeDimension.orientations_of(self.as_cuboid())[i],
    {
        let cuboid = Cuboid::new(self.width, self.depth, self.height);
        let os = RotationType::ThreeDimension.orientations_for(&cuboid);
        let mut result: Vec<Rectangle> = Vec::new();
        let mut i: usize = 0;
        while i < os.len()
            invariant
                i <= os@.len(),
                result@.len() == i,
                forall|k: int| 0 <= k < i ==> (#[trigger] result@[k]).as_cuboid() == os@[k],
            decreases os@.len() - i,
        {
            result.push(Rectangle::new(os[i].width, os[i].depth, os[i].height));
            i += 1;
        }
        result
    }

    pub fn volume(&self) -> (r: i128)
        ensures
            r == self.as_cuboid().vol(),
    {
        Cuboid::new(self.width, self.depth, self.height).volume()
    }

    pub fn can_fit_in(&self, space: &Space) -> (r: bool)
        ensures
            r == self.as_cuboid().fits(*space),
    {
        Cuboid::new(self.width, self.depth, self.height).can_fit_in(space)
    }
}

} // verus!
