//! Volume as a count of unit cells, and the lower bound it gives on the number of bins.

use vstd::prelude::*;

use crate::geom::{Cuboid, RotationType, Space};
use crate::placer;
use crate::placer::{apart, bin_space, load, placed_volume, total_volume, valid_solution, InnerPlacement, InnerSolution};

verus! {

/// The unit cells, named by their lowest corner, of the box `[x0, x1) × [y0, y1) × [z0, z1)`.
pub open spec fn grid(x0: int, x1: int, y0: int, y1: int, z0: int, z1: int) -> Set<(int, int, int)> {
    Set::new(|p: (int, int, int)| x0 <= p.0 < x1 && y0 <= p.1 < y1 && z0 <= p.2 < z1)
}

/// The unit cells of a space.
pub open spec fn cells(s: Space) -> Set<(int, int, int)> {
    grid(
        s.bottom_left.x as int,
        s.upper_right.x as int,
        s.bottom_left.y as int,
        s.upper_right.y as int,
        s.bottom_left.z as int,
        s.upper_right.z as int,
    )
}

proof fn lemma_row(x: int, y: int, z0: int, z1: int)
    requires
        z0 <= z1,
    ensures
        grid(x, x + 1, y, y + 1, z0, z1).finite(),
        grid(x, x + 1, y, y + 1, z0, z1).len() == z1 - z0,
    decreases z1 - z0,
{
    if z1 == z0 {
        assert(grid(x, x + 1, y, y + 1, z0, z1) =~= Set::empty());
    } else {
        lemma_row(x, y, z0, z1 - 1);
        assert(grid(x, x + 1, y, y + 1, z0, z1) =~= grid(x, x + 1, y, y + 1, z0, z1 - 1).insert(
            (x, y, z1 - 1),
        ));
    }
}

proof fn lemma_slab(x: int, y0: int, y1: int, z0: int, z1: int)
    requires
        y0 <= y1,
        z0 <= z1,
    ensures
        grid(x, x + 1, y0, y1, z0, z1).finite(),
        grid(x, x + 1, y0, y1, z0, z1).len() == (y1 - y0) * (z1 - z0),
    decreases y1 - y0,
{
    if y1 == y0 {
        assert(grid(x, x + 1, y0, y1, z0, z1) =~= Set::empty());
    } else {
        lemma_slab(x, y0, y1 - 1, z0, z1);
        lemma_row(x, y1 - 1, z0, z1);
        let a = grid(x, x + 1, y0, y1 - 1, z0, z1);
        let b = grid(x, x + 1, y1 - 1, y1, z0, z1);
        assert(grid(x, x + 1, y0, y1, z0, z1) =~= a + b);
        assert(a.disjoint(b));
        vstd::set_lib::lemma_set_disjoint_lens(a, b);
        assert((y1 - y0) * (z1 - z0) == (y1 - 1 - y0) * (z1 - z0) + (z1 - z0)) by (nonlinear_arith);
    }
}

/// A box of cells has as many cells as the product of its extents.
proof fn lemma_grid(x0: int, x1: int, y0: int, y1: int, z0: int, z1: int)
    requires
        x0 <= x1,
        y0 <= y1,
        z0 <= z1,
    ensures
        grid(x0, x1, y0, y1, z0, z1).finite(),
        grid(x0, x1, y0, y1, z0, z1).len() == (x1 - x0) * ((y1 - y0) * (z1 - z0)),
    decreases x1 - x0,
{
    if x1 == x0 {
        assert(grid(x0, x1, y0, y1, z0, z1) =~= Set::empty());
    } else {
        lemma_grid(x0, x1 - 1, y0, y1, z0, z1);
        lemma_slab(x1 - 1, y0, y1, z0, z1);
        let a = grid(x0, x1 - 1, y0, y1, z0, z1);
        let b = grid(x1 - 1, x1, y0, y1, z0, z1);
        assert(grid(x0, x1, y0, y1, z0, z1) =~= a + b);
        assert(a.disjoint(b));
        vstd::set_lib::lemma_set_disjoint_lens(a, b);
        let area = (y1 - y0) * (z1 - z0);
        assert((x1 - x0) * area == (x1 - 1 - x0) * area + area) by (nonlinear_arith);
    }
}

/// A well-formed space has as many cells as its volume.
pub proof fn lemma_cells_len(s: Space)
    requires
        s.wf(),
    ensures
        cells(s).finite(),
        cells(s).len() == s.vol(),
{
    let (x0, x1) = (s.bottom_left.x as int, s.upper_right.x as int);
    let (y0, y1) = (s.bottom_left.y as int, s.upper_right.y as int);
    let (z0, z1) = (s.bottom_left.z as int, s.upper_right.z as int);
    lemma_grid(x0, x1, y0, y1, z0, z1);
    assert((x1 - x0) * ((y1 - y0) * (z1 - z0)) == (x1 - x0) * (z1 - z0) * (y1 - y0)) by (nonlinear_arith);
}

/// Spaces that share no volume share no cell.
pub proof fn lemma_cells_disjoint(a: Space, b: Space)
    requires
        !a.overlaps(b),
    ensures
        cells(a).disjoint(cells(b)),
{
    assert forall|p: (int, int, int)| !(cells(a).contains(p) && cells(b).contains(p)) by {
        if cells(a).contains(p) && cells(b).contains(p) {
            assert(a.overlaps(b));
        }
    }
}

/// The cells of bin `b` that its placements cover.
pub open spec fn covered(pls: Seq<InnerPlacement>, b: int) -> Set<(int, int, int)>
    decreases pls.len(),
{
    if pls.len() == 0 {
        Set::empty()
    } else {
        covered(pls.drop_last(), b) + if pls.last().bin_no == b {
            cells(pls.last().space)
        } else {
            Set::empty()
        }
    }
}

/// In bin `b`, the covered cells lie inside the bin, every covered cell belongs to a
/// placement of `b`, and there are as many of them as the bin's load.
proof fn lemma_covered(pls: Seq<InnerPlacement>, bin: Cuboid, b: int)
    requires
        bin.wf(),
        apart(pls),
        forall|i: int| 0 <= i < pls.len() ==> bin_space(bin).encloses(#[trigger] pls[i].space) && pls[i].space.wf(),
    ensures
        covered(pls, b).finite(),
        covered(pls, b).len() == load(pls, b),
        covered(pls, b).subset_of(cells(bin_space(bin))),
        forall|p: (int, int, int)| #[trigger] covered(pls, b).contains(p) ==> exists|i: int|
            0 <= i < pls.len() && pls[i].bin_no == b && #[trigger] cells(pls[i].space).contains(p),
    decreases pls.len(),
{
    if pls.len() > 0 {
        let t = pls.drop_last();
        let last = pls.last();
        assert forall|i: int| 0 <= i < t.len() implies bin_space(bin).encloses(#[trigger] t[i].space) && t[i].space.wf() by {
            assert(t[i] == pls[i]);
        }
        assert(apart(t)) by {
            assert forall|i: int, j: int| 0 <= i < j < t.len() && #[trigger] t[i].bin_no == #[trigger] t[j].bin_no implies !t[i].space.overlaps(t[j].space) by {
                assert(t[i] == pls[i] && t[j] == pls[j]);
            }
        }
        lemma_covered(t, bin, b);
        let prev = covered(t, b);
        if last.bin_no == b {
            let c = cells(last.space);
            lemma_cells_len(last.space);
            assert(prev.disjoint(c)) by {
                assert forall|p: (int, int, int)| !(prev.contains(p) && c.contains(p)) by {
                    if prev.contains(p) && c.contains(p) {
                        let i = choose|i: int| 0 <= i < t.len() && t[i].bin_no == b && #[trigger] cells(t[i].space).contains(p);
                        assert(pls[i] == t[i]);
                        assert(!pls[i].space.overlaps(pls[pls.len() - 1].space));
                        lemma_cells_disjoint(t[i].space, last.space);
                    }
                }
            }
            vstd::set_lib::lemma_set_disjoint_lens(prev, c);
            assert forall|p: (int, int, int)| c.contains(p) implies cells(bin_space(bin)).contains(p) by {
            }
            assert forall|p: (int, int, int)| #[trigger] covered(pls, b).contains(p) implies exists|i: int|
                0 <= i < pls.len() && pls[i].bin_no == b && #[trigger] cells(pls[i].space).contains(p) by {
                if prev.contains(p) {
                    let i = choose|i: int| 0 <= i < t.len() && t[i].bin_no == b && #[trigger] cells(t[i].space).contains(p);
                    assert(pls[i] == t[i]);
                } else {
                    assert(cells(pls[pls.len() - 1].space).contains(p));
                }
            }
        } else {
            assert(covered(pls, b) =~= prev);
            assert forall|p: (int, int, int)| #[trigger] covered(pls, b).contains(p) implies exists|i: int|
                0 <= i < pls.len() && pls[i].bin_no == b && #[trigger] cells(pls[i].space).contains(p) by {
                let i = choose|i: int| 0 <= i < t.len() && t[i].bin_no == b && #[trigger] cells(t[i].space).contains(p);
                assert(pls[i] == t[i]);
            }
        }
    } else {
        assert(covered(pls, b) =~= Set::empty());
    }
}

/// The sum of the loads of bins `0..num_bins`.
pub open spec fn loads_sum(pls: Seq<InnerPlacement>, num_bins: int) -> int
    decreases num_bins,
{
    if num_bins <= 0 {
        0
    } else {
        loads_sum(pls, num_bins - 1) + load(pls, num_bins - 1)
    }
}

proof fn lemma_loads_sum_step(pls: Seq<InnerPlacement>, k: int)
    requires
        pls.len() > 0,
        k >= 0,
    ensures
        loads_sum(pls, k) == loads_sum(pls.drop_last(), k) + if 0 <= pls.last().bin_no < k {
            pls.last().space.vol()
        } else {
            0
        },
    decreases k,
{
    if k > 0 {
        lemma_loads_sum_step(pls, k - 1);
    }
}

pub proof fn lemma_loads_sum(pls: Seq<InnerPlacement>, num_bins: int)
    requires
        num_bins >= 0,
        forall|i: int| 0 <= i < pls.len() ==> #[trigger] pls[i].bin_no < num_bins,
    ensures
        loads_sum(pls, num_bins) == placed_volume(pls),
    decreases pls.len(),
{
    if pls.len() > 0 {
        let t = pls.drop_last();
        assert forall|i: int| 0 <= i < t.len() implies #[trigger] t[i].bin_no < num_bins by {
            assert(t[i] == pls[i]);
        }
        lemma_loads_sum(t, num_bins);
        lemma_loads_sum_step(pls, num_bins);
        assert(pls[pls.len() - 1].bin_no < num_bins);
    } else {
        assert(loads_sum(pls, num_bins) == 0) by {
            lemma_loads_zero(pls, num_bins);
        }
    }
}

proof fn lemma_loads_zero(pls: Seq<InnerPlacement>, k: int)
    requires
        pls.len() == 0,
    ensures
        loads_sum(pls, k) == 0,
    decreases k,
{
    if k > 0 {
        lemma_loads_zero(pls, k - 1);
    }
}

proof fn lemma_loads_bound(pls: Seq<InnerPlacement>, k: int, cap: int)
    requires
        k >= 0,
        forall|b: int| 0 <= b < k ==> #[trigger] load(pls, b) <= cap,
    ensures
        loads_sum(pls, k) <= k * cap,
    decreases k,
{
    if k > 0 {
        lemma_loads_bound(pls, k - 1, cap);
        assert(load(pls, k - 1) <= cap);
        assert(k * cap == (k - 1) * cap + cap) by (nonlinear_arith);
    } else {
        assert(k * cap == 0) by (nonlinear_arith)
            requires
                k == 0,
        ;
    }
}

/// No packing uses fewer bins than the items' total volume needs: `num_bins * bin_volume` is
/// at least the total volume, so `num_bins >= ceil(total / bin_volume)`.
pub proof fn lemma_bin_count_bound(
    items: Seq<Cuboid>,
    bin: Cuboid,
    tp: RotationType,
    keys: Seq<u32>,
    sol: InnerSolution,
)
    requires
        bin.wf(),
        valid_solution(items, bin, tp, keys, sol),
    ensures
        sol.num_bins * bin.vol() >= total_volume(items),
        sol.num_bins >= (total_volume(items) + bin.vol() - 1) / bin.vol(),
{
    let pls = sol.placements@;
    let nb = sol.num_bins as int;
    let v = bin.vol();
    placer::lemma_volume_conserved(items, bin, tp, keys, sol);
    assert forall|i: int| 0 <= i < pls.len() implies #[trigger] pls[i].bin_no < nb && bin_space(bin).encloses(pls[i].space) && pls[i].space.wf() by {
        assert(placer::placed_well(items, bin, tp, nb, pls[i]));
    }
    lemma_loads_sum(pls, nb);
    lemma_cells_len(bin_space(bin));
    assert(bin_space(bin).vol() == v);
    assert forall|b: int| 0 <= b < nb implies #[trigger] load(pls, b) <= v by {
        lemma_covered(pls, bin, b);
        vstd::set_lib::lemma_len_subset(covered(pls, b), cells(bin_space(bin)));
    }
    lemma_loads_bound(pls, nb, v);
    let t = total_volume(items);
    assert(v > 0) by (nonlinear_arith)
        requires
            v == bin.width * bin.depth * bin.height,
            bin.width > 0,
            bin.depth > 0,
            bin.height > 0,
    ;
    let x = t + v - 1;
    vstd::arithmetic::div_mod::lemma_fundamental_div_mod(x, v);
    let q = x / v;
    if q > nb {
        assert(v * q >= v * (nb + 1)) by (nonlinear_arith)
            requires
                q >= nb + 1,
                v > 0,
        ;
        assert(v * (nb + 1) == nb * v + v) by (nonlinear_arith);
    }
}

} // verus!
