//! Three-dimensional multi-bin packing driven by a biased random-key genetic algorithm.
//!
//! Fractions (the elite and mutant shares, the inheritance probability) are written in parts
//! per million, so `1_000_000` stands for one.

pub mod ga;
pub mod geom;
pub mod measure;
pub mod placer;
pub mod problem;

use vstd::prelude::*;

use crate::ga::{RandGenerator, Solver, PPM};
use crate::geom::{Cuboid, RotationType, Space};
use crate::placer::{bin_space, can_hold, decodes_to, load, valid_solution, Decoder, InnerPlacement, InnerSolution};

verus! {

/// The user-facing settings of a packing run.
#[derive(PartialEq, Eq, Structural, Copy, Clone, Debug)]
pub struct Params {
    /// The population holds this many members per item.
    pub population_factor: usize,
    /// The share of elites, in parts per million.
    pub elites_percentage: u32,
    /// The share of mutants, in parts per million.
    pub mutants_percentage: u32,
    /// The chance that a gene comes from the elite parent, in parts per million.
    pub inherit_elite_probability: u32,
    pub max_generations: i32,
    pub max_generations_no_improvement: i32,
    pub box_rotation_type: RotationType,
}

impl Default for Params {
    fn default() -> (r: Params)
        ensures
            r == (Params {
                population_factor: 30,
                elites_percentage: 100_000,
                mutants_percentage: 150_000,
                inherit_elite_probability: 700_000,
                max_generations: 200,
                max_generations_no_improvement: 5,
                box_rotation_type: RotationType::ThreeDimension,
            }),
    {
        Params {
            population_factor: 30,
            elites_percentage: 100_000,
            mutants_percentage: 150_000,
            inherit_elite_probability: 700_000,
            max_generations: 200,
            max_generations_no_improvement: 5,
            box_rotation_type: RotationType::ThreeDimension,
        }
    }
}

impl Params {
    /// The shares are at most one and the population size fits in a `usize`.
    pub open spec fn fits(self, num_items: int) -> bool {
        &&& self.population_factor * num_items <= usize::MAX
        &&& self.elites_percentage <= PPM
        &&& self.mutants_percentage <= PPM
        &&& self.inherit_elite_probability <= PPM
    }

    /// The algorithm's settings for `num_items` items: a population of `population_factor`
    /// members per item, and the floors of the elite and mutant shares of it.
    pub open spec fn ga_params(self, num_items: int) -> ga::Params {
        let population_size = self.population_factor * num_items;
        ga::Params {
            population_size: population_size as usize,
            num_elites: (population_size * self.elites_percentage / 1_000_000) as usize,
            num_mutants: (population_size * self.mutants_percentage / 1_000_000) as usize,
            inherit_elite_probability: self.inherit_elite_probability,
            max_generations: self.max_generations,
            max_generations_no_improvement: self.max_generations_no_improvement,
        }
    }

    pub fn get_ga_params(&self, num_items: usize) -> (r: ga::Params)
        requires
            self.fits(num_items as int),
        ensures
            r == self.ga_params(num_items as int),
    {
        let population_size = self.population_factor * num_items;
        proof {
            assert(population_size * self.elites_percentage / 1_000_000 <= population_size) by (nonlinear_arith)
                requires
                    self.elites_percentage <= 1_000_000,
                    population_size >= 0,
            ;
            assert(population_size * self.mutants_percentage / 1_000_000 <= population_size) by (nonlinear_arith)
                requires
                    self.mutants_percentage <= 1_000_000,
                    population_size >= 0,
            ;
        }
        let num_elites = ((population_size as u128) * (self.elites_percentage as u128) / 1_000_000) as usize;
        let num_mutants = ((population_size as u128) * (self.mutants_percentage as u128) / 1_000_000) as usize;
        ga::Params {
            population_size,
            num_elites,
            num_mutants,
            inherit_elite_probability: self.inherit_elite_probability,
            max_generations: self.max_generations,
            max_generations_no_improvement: self.max_generations_no_improvement,
        }
    }
}

/// An item's place: the space it occupies and its index in the input.
#[derive(PartialEq, Eq, Structural, Clone, Copy, Debug)]
pub struct Placement {
    pub space: Space,
    pub item_idx: usize,
}

/// The placements of each bin, bin by bin, each bin's in placement order.
pub type PackSolution = Vec<Vec<Placement>>;

/// The placements that went into bin `b`, in placement order.
pub open spec fn bin_contents(pls: Seq<InnerPlacement>, b: int) -> Seq<Placement>
    decreases pls.len(),
{
    if pls.len() == 0 {
        Seq::empty()
    } else {
        let rest = bin_contents(pls.drop_last(), b);
        if pls.last().bin_no == b {
            rest.push(Placement { space: pls.last().space, item_idx: pls.last().box_idx })
        } else {
            rest
        }
    }
}

/// `out` is the packing that `sol` describes, grouped by bin.
pub open spec fn laid_out(sol: InnerSolution, out: Seq<Vec<Placement>>) -> bool {
    &&& out.len() == sol.num_bins
    &&& forall|b: int| 0 <= b < out.len() ==> (#[trigger] out[b])@ == bin_contents(sol.placements@, b)
}

/// The requirements of `pack_boxes`: at least one item; a bin and items with positive
/// extents; every item fits in an empty bin in some admissible orientation; the bin volume
/// fits in an `i64`; and settings that give a non-empty population whose elites and mutants
/// leave room for each other, with an elite parent for every offspring.
pub open spec fn packable(params: Params, bin_spec: Cuboid, boxes: Seq<Cuboid>) -> bool {
    let n = boxes.len() as int;
    &&& n >= 1
    &&& 2 * n <= usize::MAX
    &&& bin_spec.wf()
    &&& bin_spec.vol() <= i64::MAX
    &&& forall|i: int| 0 <= i < n ==> (#[trigger] boxes[i]).wf() && can_hold(params.box_rotation_type, boxes[i], bin_spec)
    &&& params.fits(n)
    &&& params.ga_params(n).wf()
}

/// Packs `boxes` into bins of size `bin_spec`. The result, grouped by bin, is the decoding of
/// the best chromosome that the genetic algorithm found: every item is placed once, in the
/// packing order of that chromosome, inside its bin in an admissible orientation, and no two
/// items of a bin share volume.
pub fn pack_boxes(params: Params, bin_spec: Cuboid, boxes: &[Cuboid]) -> (r: PackSolution)
    requires
        packable(params, bin_spec, boxes@),
    ensures
        exists|keys: Seq<u32>, sol: InnerSolution|
            keys.len() == 2 * boxes@.len() && #[trigger] decodes_to(
                boxes@,
                bin_spec,
                params.box_rotation_type,
                keys,
                sol,
            ) && #[trigger] laid_out(sol, r@),
{
    let n = boxes.len();
    let generator = RandGenerator::new(n * 2);
    let ga_params = params.get_ga_params(n);
    let decoder = Decoder::new(boxes, bin_spec, params.box_rotation_type);
    let mut solver = Solver::new(ga_params, generator, decoder);
    let solution = solver.solve();
    let ghost keys = solver.population@[0].chromosome@;
    let ghost pls = solution.placements@;

    let mut bins: Vec<Vec<Placement>> = Vec::new();
    let mut b: usize = 0;
    while b < solution.num_bins
        invariant
            b <= solution.num_bins,
            bins@.len() == b,
            forall|c: int| 0 <= c < b ==> (#[trigger] bins@[c])@ == Seq::<Placement>::empty(),
        decreases solution.num_bins - b,
    {
        bins.push(Vec::new());
        b += 1;
    }
    assert forall|c: int| 0 <= c < bins@.len() implies (#[trigger] bins@[c])@ == bin_contents(pls.take(0), c) by {
        assert(pls.take(0) =~= Seq::<InnerPlacement>::empty());
    }
    let mut i: usize = 0;
    while i < solution.placements.len()
        invariant
            pls == solution.placements@,
            i <= pls.len(),
            bins@.len() == solution.num_bins,
            forall|k: int| 0 <= k < pls.len() ==> (#[trigger] pls[k]).bin_no < solution.num_bins,
            forall|c: int| 0 <= c < bins@.len() ==> (#[trigger] bins@[c])@ == bin_contents(pls.take(i as int), c),
        decreases pls.len() - i,
    {
        let p = solution.placements[i];
        let idx = p.bin_no;
        let ghost before = bins@;
        bins[idx].push(Placement { space: p.space, item_idx: p.box_idx });
        proof {
            assert(pls.take(i as int + 1).drop_last() =~= pls.take(i as int));
            assert(pls.take(i as int + 1).last() == p);
            assert forall|c: int| 0 <= c < bins@.len() implies (#[trigger] bins@[c])@ == bin_contents(pls.take(i as int + 1), c) by {
                if c != idx {
                    assert(bins@[c] == before[c]);
                }
            }
        }
        i += 1;
    }
    assert(pls.take(pls.len() as int) =~= pls);
    assert(laid_out(solution, bins@));
    assert(decodes_to(boxes@, bin_spec, params.box_rotation_type, keys, solution));
    bins
}

/// The output form of a placement.
pub open spec fn as_placement(p: InnerPlacement) -> Placement {
    Placement { space: p.space, item_idx: p.box_idx }
}

/// How many of the placements before `i` went into bin `b`: the position of placement `i` in
/// its bin.
pub open spec fn rank(pls: Seq<InnerPlacement>, b: int, i: int) -> int {
    bin_contents(pls.take(i), b).len() as int
}

/// Entry `q` of bin `b`'s list comes from a placement of `b`.
pub open spec fn has_source(pls: Seq<InnerPlacement>, b: int, q: int) -> bool {
    exists|i: int| 0 <= i < pls.len() && pls[i].bin_no == b && #[trigger] rank(pls, b, i) == q
}

/// Each placement of bin `b` stands in the bin's list at its rank, ranks grow with placement
/// order, and every entry of the list comes from some placement of `b`.
proof fn lemma_bin_contents(pls: Seq<InnerPlacement>, b: int)
    ensures
        forall|i: int|
            0 <= i < pls.len() && #[trigger] pls[i].bin_no == b ==> rank(pls, b, i) < bin_contents(pls, b).len()
                && bin_contents(pls, b)[rank(pls, b, i)] == as_placement(pls[i]),
        forall|i: int, j: int|
            0 <= i < j < pls.len() && #[trigger] pls[i].bin_no == b && #[trigger] pls[j].bin_no == b
                ==> rank(pls, b, i) < rank(pls, b, j),
        forall|q: int| 0 <= q < bin_contents(pls, b).len() ==> #[trigger] has_source(pls, b, q),
    decreases pls.len(),
{
    if pls.len() > 0 {
        let t = pls.drop_last();
        let n = pls.len() - 1;
        lemma_bin_contents(t, b);
        assert(pls.take(n) =~= t);
        assert forall|i: int| 0 <= i < n implies rank(pls, b, i) == rank(t, b, i) by {
            assert(pls.take(i) =~= t.take(i));
        }
        let prev = bin_contents(t, b);
        let cur = bin_contents(pls, b);
        assert forall|i: int|
            0 <= i < pls.len() && #[trigger] pls[i].bin_no == b implies rank(pls, b, i) < cur.len()
                && cur[rank(pls, b, i)] == as_placement(pls[i]) by {
            if i < n {
                assert(t[i] == pls[i]);
                assert(rank(pls, b, i) == rank(t, b, i));
            }
        }
        assert forall|i: int, j: int|
            0 <= i < j < pls.len() && #[trigger] pls[i].bin_no == b && #[trigger] pls[j].bin_no == b
                implies rank(pls, b, i) < rank(pls, b, j) by {
            assert(t[i] == pls[i]);
            assert(rank(pls, b, i) == rank(t, b, i));
            if j < n {
                assert(t[j] == pls[j]);
                assert(rank(pls, b, j) == rank(t, b, j));
            }
        }
        assert forall|q: int| 0 <= q < cur.len() implies #[trigger] has_source(pls, b, q) by {
            if q < prev.len() {
                assert(has_source(t, b, q));
                let i = choose|i: int| 0 <= i < t.len() && t[i].bin_no == b && #[trigger] rank(t, b, i) == q;
                assert(rank(pls, b, i) == rank(t, b, i));
            } else {
                assert(rank(pls, b, n) == q);
            }
        }
    }
}

/// The total volume of a list of placements.
pub open spec fn contents_volume(s: Seq<Placement>) -> int
    decreases s.len(),
{
    if s.len() == 0 {
        0
    } else {
        contents_volume(s.drop_last()) + s.last().space.vol()
    }
}

/// The total volume placed in the first `k` output bins.
pub open spec fn output_volume(out: Seq<Vec<Placement>>, k: int) -> int
    decreases k,
{
    if k <= 0 {
        0
    } else {
        output_volume(out, k - 1) + contents_volume(out[k - 1]@)
    }
}

proof fn lemma_contents_volume(pls: Seq<InnerPlacement>, b: int)
    ensures
        contents_volume(bin_contents(pls, b)) == load(pls, b),
    decreases pls.len(),
{
    if pls.len() > 0 {
        lemma_contents_volume(pls.drop_last(), b);
        let prev = bin_contents(pls.drop_last(), b);
        if pls.last().bin_no == b {
            assert(bin_contents(pls, b).drop_last() =~= prev);
        }
    }
}

proof fn lemma_output_volume(pls: Seq<InnerPlacement>, out: Seq<Vec<Placement>>, k: int)
    requires
        0 <= k <= out.len(),
        forall|c: int| 0 <= c < out.len() ==> (#[trigger] out[c])@ == bin_contents(pls, c),
    ensures
        output_volume(out, k) == measure::loads_sum(pls, k),
    decreases k,
{
    if k > 0 {
        lemma_output_volume(pls, out, k - 1);
        lemma_contents_volume(pls, k - 1);
        assert(out[k - 1]@ == bin_contents(pls, k - 1));
    }
}

/// Some output bin holds item `b`.
pub open spec fn output_holds(out: Seq<Vec<Placement>>, b: int) -> bool {
    exists|c: int, q: int| 0 <= c < out.len() && 0 <= q < out[c]@.len() && #[trigger] out[c]@[q].item_idx == b
}

/// In the output of a valid decoding, every input item appears in exactly one placement (and
/// nothing else does), no two placements of a bin share volume, every placement lies between
/// the origin and the bin's upper-right corner, the placed volumes add up to the items'
/// volumes, and there are at least `ceil(total item volume / bin volume)` bins.
pub proof fn lemma_output_packing(
    items: Seq<Cuboid>,
    bin: Cuboid,
    tp: RotationType,
    keys: Seq<u32>,
    sol: InnerSolution,
    out: Seq<Vec<Placement>>,
)
    requires
        bin.wf(),
        valid_solution(items, bin, tp, keys, sol),
        laid_out(sol, out),
    ensures
        forall|b: int| 0 <= b < items.len() ==> #[trigger] output_holds(out, b),
        forall|c: int, q: int|
            0 <= c < out.len() && 0 <= q < out[c]@.len() ==> (#[trigger] out[c]@[q]).item_idx < items.len(),
        output_volume(out, out.len() as int) == placer::total_volume(items),
        out.len() * bin.vol() >= placer::total_volume(items),
        out.len() >= (placer::total_volume(items) + bin.vol() - 1) / bin.vol(),
        forall|c1: int, q1: int, c2: int, q2: int|
            0 <= c1 < out.len() && 0 <= q1 < out[c1]@.len() && 0 <= c2 < out.len() && 0 <= q2 < out[c2]@.len()
                && (#[trigger] out[c1]@[q1]).item_idx == (#[trigger] out[c2]@[q2]).item_idx ==> c1 == c2 && q1 == q2,
        forall|c: int, q1: int, q2: int|
            0 <= c < out.len() && 0 <= q1 < out[c]@.len() && 0 <= q2 < out[c]@.len() && q1 != q2
                ==> !(#[trigger] out[c]@[q1]).space.overlaps((#[trigger] out[c]@[q2]).space),
        forall|c: int, q: int|
            0 <= c < out.len() && 0 <= q < out[c]@.len() ==> bin_space(bin).encloses(
                (#[trigger] out[c]@[q]).space,
            ),
{
    let pls = sol.placements@;
    placer::lemma_each_item_once(items, bin, tp, keys, sol);
    placer::lemma_bins_apart(items, bin, tp, keys, sol);
    measure::lemma_bin_count_bound(items, bin, tp, keys, sol);
    placer::lemma_volume_conserved(items, bin, tp, keys, sol);
    assert forall|i: int| 0 <= i < pls.len() implies #[trigger] pls[i].bin_no < sol.num_bins by {
        assert(placer::placed_well(items, bin, tp, sol.num_bins as int, pls[i]));
    }
    measure::lemma_loads_sum(pls, sol.num_bins as int);
    lemma_output_volume(pls, out, out.len() as int);
    assert forall|c: int| 0 <= c < out.len() implies (#[trigger] out[c])@ == bin_contents(pls, c) && {
        &&& forall|i: int|
            0 <= i < pls.len() && #[trigger] pls[i].bin_no == c ==> rank(pls, c, i) < bin_contents(pls, c).len()
                && bin_contents(pls, c)[rank(pls, c, i)] == as_placement(pls[i])
        &&& forall|i: int, j: int|
            0 <= i < j < pls.len() && #[trigger] pls[i].bin_no == c && #[trigger] pls[j].bin_no == c
                ==> rank(pls, c, i) < rank(pls, c, j)
        &&& forall|q: int| 0 <= q < bin_contents(pls, c).len() ==> #[trigger] has_source(pls, c, q)
    } by {
        lemma_bin_contents(pls, c);
    }
    assert forall|b: int| 0 <= b < items.len() implies #[trigger] output_holds(out, b) by {
        assert(placer::holds_item(pls, b));
        let i = choose|i: int| 0 <= i < pls.len() && #[trigger] pls[i].box_idx == b;
        let c = pls[i].bin_no as int;
        assert(placer::placed_well(items, bin, tp, sol.num_bins as int, pls[i]));
        assert(out[c]@ == bin_contents(pls, c));
        let q = rank(pls, c, i);
        assert(pls[i].bin_no == c);
        assert(q < out[c]@.len() && out[c]@[q] == as_placement(pls[i]));
        assert(out[c]@[q].item_idx == b);
    }
    assert forall|c1: int, q1: int, c2: int, q2: int|
        0 <= c1 < out.len() && 0 <= q1 < out[c1]@.len() && 0 <= c2 < out.len() && 0 <= q2 < out[c2]@.len()
            && (#[trigger] out[c1]@[q1]).item_idx == (#[trigger] out[c2]@[q2]).item_idx implies c1 == c2 && q1 == q2 by {
        assert(has_source(pls, c1, q1) && has_source(pls, c2, q2));
        let i1 = choose|i: int| 0 <= i < pls.len() && pls[i].bin_no == c1 && #[trigger] rank(pls, c1, i) == q1;
        let i2 = choose|i: int| 0 <= i < pls.len() && pls[i].bin_no == c2 && #[trigger] rank(pls, c2, i) == q2;
        assert(out[c1]@[q1] == as_placement(pls[i1]));
        assert(out[c2]@[q2] == as_placement(pls[i2]));
        if i1 < i2 {
            assert(pls[i1].box_idx != pls[i2].box_idx);
        } else if i2 < i1 {
            assert(pls[i2].box_idx != pls[i1].box_idx);
        }
    }
    assert forall|c: int, q1: int, q2: int|
        0 <= c < out.len() && 0 <= q1 < out[c]@.len() && 0 <= q2 < out[c]@.len() && q1 != q2
            implies !(#[trigger] out[c]@[q1]).space.overlaps((#[trigger] out[c]@[q2]).space) by {
        assert(has_source(pls, c, q1) && has_source(pls, c, q2));
        let i1 = choose|i: int| 0 <= i < pls.len() && pls[i].bin_no == c && #[trigger] rank(pls, c, i) == q1;
        let i2 = choose|i: int| 0 <= i < pls.len() && pls[i].bin_no == c && #[trigger] rank(pls, c, i) == q2;
        assert(out[c]@[q1] == as_placement(pls[i1]));
        assert(out[c]@[q2] == as_placement(pls[i2]));
        assert(i1 != i2);
    }
    assert forall|c: int, q: int| 0 <= c < out.len() && 0 <= q < out[c]@.len() implies bin_space(bin).encloses(
        (#[trigger] out[c]@[q]).space,
    ) && out[c]@[q].item_idx < items.len() by {
        assert(has_source(pls, c, q));
        let i = choose|i: int| 0 <= i < pls.len() && pls[i].bin_no == c && #[trigger] rank(pls, c, i) == q;
        assert(out[c]@[q] == as_placement(pls[i]));
        assert(placer::placed_well(items, bin, tp, sol.num_bins as int, pls[i]));
    }
}

} // verus!
