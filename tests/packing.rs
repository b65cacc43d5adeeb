use kaosu_packer::geom::{Cuboid, Point, RotationType, Space};
use kaosu_packer::placer::{calculate_bps, Decoder, InnerBin};
use kaosu_packer::problem::{Error, Item, ProblemSpec};
use kaosu_packer::{pack_boxes, Params, Placement};

fn space(b: (i32, i32, i32), u: (i32, i32, i32)) -> Space {
    Space {
        bottom_left: Point::new(b.0, b.1, b.2),
        upper_right: Point::new(u.0, u.1, u.2),
    }
}

fn overlaps(a: &Space, b: &Space) -> bool {
    a.bottom_left.x.max(b.bottom_left.x) < a.upper_right.x.min(b.upper_right.x)
        && a.bottom_left.y.max(b.bottom_left.y) < a.upper_right.y.min(b.upper_right.y)
        && a.bottom_left.z.max(b.bottom_left.z) < a.upper_right.z.min(b.upper_right.z)
}

/// Checks every packing law on one result and returns the number of bins.
fn check_packing(bin: Cuboid, items: &[Cuboid], bins: &[Vec<Placement>]) -> usize {
    let bin_space = Space::from_placement(&Point::new(0, 0, 0), &bin);
    let mut seen = vec![0usize; items.len()];
    let mut placed_volume: i128 = 0;
    for placements in bins {
        assert!(!placements.is_empty());
        for (i, p) in placements.iter().enumerate() {
            seen[p.item_idx] += 1;
            assert!(bin_space.contains(&p.space));
            assert_eq!(p.space.volume(), items[p.item_idx].volume());
            placed_volume += p.space.volume();
            for q in &placements[i + 1..] {
                assert!(!overlaps(&p.space, &q.space));
            }
        }
    }
    assert!(seen.iter().all(|&c| c == 1));
    let item_volume: i128 = items.iter().map(|c| c.volume()).sum();
    assert_eq!(placed_volume, item_volume);
    let bin_volume = bin.volume();
    assert!(bins.len() as i128 >= (item_volume + bin_volume - 1) / bin_volume);
    bins.len()
}

fn utilization(bin: Cuboid, placements: &[Placement]) -> i128 {
    let used: i128 = placements.iter().map(|p| p.space.volume()).sum();
    used * 100 / bin.volume()
}

#[test]
fn one_item_fills_one_bin() {
    let bin = Cuboid::new(10, 10, 10);
    let items = vec![Cuboid::new(10, 10, 10)];
    let bins = pack_boxes(Params::default(), bin, &items);
    assert_eq!(check_packing(bin, &items, &bins), 1);
    assert_eq!(bins[0].len(), 1);
    assert_eq!(bins[0][0].space, space((0, 0, 0), (10, 10, 10)));
    assert_eq!(utilization(bin, &bins[0]), 100);
}

#[test]
fn eight_cubes_fill_one_bin() {
    let bin = Cuboid::new(10, 10, 10);
    let items = vec![Cuboid::new(5, 5, 5); 8];
    let bins = pack_boxes(Params::default(), bin, &items);
    assert_eq!(check_packing(bin, &items, &bins), 1);
    assert_eq!(utilization(bin, &bins[0]), 100);
}

#[test]
fn two_full_items_need_two_bins() {
    let bin = Cuboid::new(10, 10, 10);
    let items = vec![Cuboid::new(10, 10, 10); 2];
    let bins = pack_boxes(Params::default(), bin, &items);
    assert_eq!(check_packing(bin, &items, &bins), 2);
    for placements in &bins {
        assert_eq!(placements.len(), 1);
        assert_eq!(*placements[0].space.origin(), Point::new(0, 0, 0));
    }
}

#[test]
fn two_dimensional_rotation_keeps_item_height() {
    let bin = Cuboid::new(10, 10, 10);
    let items = vec![Cuboid::new(3, 5, 7)];
    let mut params = Params::default();
    params.box_rotation_type = RotationType::TwoDimension;
    let bins = pack_boxes(params, bin, &items);
    assert_eq!(check_packing(bin, &items, &bins), 1);
    assert_eq!(bins[0][0].space.height(), 7);
}

#[test]
fn twenty_seven_cubes_fill_one_bin() {
    let bin = Cuboid::new(9, 9, 9);
    let items = vec![Cuboid::new(3, 3, 3); 27];
    let bins = pack_boxes(Params::default(), bin, &items);
    assert_eq!(check_packing(bin, &items, &bins), 1);
    assert_eq!(utilization(bin, &bins[0]), 100);
}

#[test]
fn mixed_items_obey_every_packing_law() {
    let bin = Cuboid::new(10, 8, 6);
    let items = vec![
        Cuboid::new(5, 4, 3),
        Cuboid::new(6, 2, 2),
        Cuboid::new(3, 3, 3),
        Cuboid::new(8, 6, 1),
        Cuboid::new(2, 7, 4),
        Cuboid::new(10, 8, 2),
        Cuboid::new(4, 4, 4),
        Cuboid::new(1, 1, 6),
    ];
    let mut params = Params::default();
    params.population_factor = 5;
    let bins = pack_boxes(params, bin, &items);
    check_packing(bin, &items, &bins);
}

#[test]
fn default_params() {
    let p = Params::default();
    assert_eq!(p.population_factor, 30);
    assert_eq!(p.elites_percentage, 100_000);
    assert_eq!(p.mutants_percentage, 150_000);
    assert_eq!(p.inherit_elite_probability, 700_000);
    assert_eq!(p.max_generations, 200);
    assert_eq!(p.max_generations_no_improvement, 5);
    assert_eq!(p.box_rotation_type, RotationType::ThreeDimension);
}

#[test]
fn ga_counts_are_floors_of_the_shares() {
    let ga = Params::default().get_ga_params(7);
    assert_eq!(ga.population_size, 210);
    assert_eq!(ga.num_elites, 21);
    assert_eq!(ga.num_mutants, 31);
    assert_eq!(ga.inherit_elite_probability, 700_000);
}

#[test]
fn packing_order_sorts_by_key_then_index() {
    let keys = vec![5u32, 1, 5, 0, 9, 9, 9, 9];
    assert_eq!(calculate_bps(&keys, 4), vec![3, 1, 0, 2]);
    assert_eq!(calculate_bps(&keys, 0), Vec::<usize>::new());
}

#[test]
fn decoding_a_fixed_chromosome() {
    let bin = Cuboid::new(10, 10, 10);
    let items = vec![Cuboid::new(4, 4, 4), Cuboid::new(6, 6, 6)];
    let decoder = Decoder::new(&items, bin, RotationType::ThreeDimension);
    let chromosome = vec![3u32 << 30, 1u32 << 30, 0, 0];
    let solution = decoder.decode_chromosome(&chromosome);
    assert_eq!(solution.num_bins, 1);
    assert_eq!(solution.least_load, 280);
    assert_eq!(solution.placements.len(), 2);
    assert_eq!(solution.placements[0].box_idx, 1);
    assert_eq!(solution.placements[0].space, space((0, 0, 0), (6, 6, 6)));
    assert_eq!(solution.placements[1].box_idx, 0);
    assert_eq!(solution.placements[1].space, space((6, 0, 0), (10, 4, 4)));
    assert_eq!(decoder.fitness_of(&solution), 1280);
}

#[test]
fn orientation_gene_picks_among_fitting_orientations() {
    let bin = Cuboid::new(10, 10, 10);
    let items = vec![Cuboid::new(1, 2, 3)];
    let decoder = Decoder::new(&items, bin, RotationType::ThreeDimension);
    let first = decoder.decode_chromosome(&vec![0, 0]);
    assert_eq!(first.placements[0].space, space((0, 0, 0), (1, 3, 2)));
    let last = decoder.decode_chromosome(&vec![0, u32::MAX]);
    assert_eq!(last.placements[0].space, space((0, 0, 0), (2, 1, 3)));
    let low = decoder.decode_chromosome(&vec![0, 1 << 29]);
    assert_eq!(low.placements[0].space, space((0, 0, 0), (1, 3, 2)));
    let second = decoder.decode_chromosome(&vec![0, 1 << 30]);
    assert_eq!(second.placements[0].space, space((0, 0, 0), (2, 3, 1)));
}

#[test]
fn only_fitting_orientations_are_counted() {
    let bin = Cuboid::new(10, 3, 2);
    let items = vec![Cuboid::new(10, 2, 3)];
    let decoder = Decoder::new(&items, bin, RotationType::ThreeDimension);
    let s = decoder.decode_chromosome(&vec![0, u32::MAX]);
    assert_eq!(s.placements[0].space, space((0, 0, 0), (10, 2, 3)));
}

#[test]
fn an_item_that_does_not_fit_opens_a_bin() {
    let bin = Cuboid::new(10, 10, 10);
    let items = vec![Cuboid::new(10, 10, 6), Cuboid::new(10, 10, 6), Cuboid::new(10, 10, 4)];
    let decoder = Decoder::new(&items, bin, RotationType::TwoDimension);
    let s = decoder.decode_chromosome(&vec![0, 1, 2, 0, 0, 0]);
    assert_eq!(s.num_bins, 2);
    assert_eq!(s.placements[0].bin_no, 0);
    assert_eq!(s.placements[1].bin_no, 1);
    assert_eq!(s.placements[2].bin_no, 0);
    assert_eq!(s.placements[2].space, space((0, 6, 0), (10, 10, 10)));
    assert_eq!(s.least_load, 600);
    assert_eq!(decoder.fitness_of(&s), 2600);
}

#[test]
fn allocation_splits_the_empty_space() {
    let mut bin = InnerBin::new(Cuboid::new(10, 10, 10));
    bin.allocate_space(&space((0, 0, 0), (5, 5, 5)), 1, 1);
    assert_eq!(bin.used_volume, 125);
    assert_eq!(
        bin.empty_space_list,
        vec![space((5, 0, 0), (10, 10, 10)), space((0, 5, 0), (10, 10, 10)), space((0, 0, 5), (10, 10, 10))]
    );
    assert_eq!(bin.try_place_cuboid(&Cuboid::new(5, 5, 5), RotationType::ThreeDimension), Some(0));
    assert_eq!(bin.try_place_cuboid(&Cuboid::new(6, 6, 6), RotationType::ThreeDimension), None);
}

#[test]
fn best_space_is_farthest_from_the_far_corner() {
    let mut bin = InnerBin::new(Cuboid::new(10, 10, 10));
    bin.allocate_space(&space((0, 0, 0), (10, 10, 4)), 1, 1);
    bin.allocate_space(&space((0, 0, 4), (10, 2, 10)), 1, 1);
    assert_eq!(bin.empty_space_list, vec![space((0, 2, 4), (10, 10, 10))]);
    assert_eq!(bin.try_place_cuboid(&Cuboid::new(2, 2, 2), RotationType::ThreeDimension), Some(0));
}

#[test]
fn filter_drops_small_remainders() {
    let mut bin = InnerBin::new(Cuboid::new(10, 10, 10));
    bin.allocate_space(&space((0, 0, 0), (8, 8, 8)), 3, 1);
    assert!(bin.empty_space_list.is_empty());
    let mut bin = InnerBin::new(Cuboid::new(10, 10, 10));
    bin.allocate_space(&space((0, 0, 0), (8, 8, 8)), 2, 201);
    assert!(bin.empty_space_list.is_empty());
    let mut bin = InnerBin::new(Cuboid::new(10, 10, 10));
    bin.allocate_space(&space((0, 0, 0), (8, 8, 8)), 2, 200);
    assert_eq!(bin.empty_space_list.len(), 3);
}

#[test]
fn enclosed_remainders_are_dropped() {
    let mut bin = InnerBin::new(Cuboid::new(10, 10, 10));
    bin.allocate_space(&space((0, 0, 0), (5, 10, 10)), 1, 1);
    assert_eq!(bin.empty_space_list, vec![space((5, 0, 0), (10, 10, 10))]);
    bin.allocate_space(&space((5, 0, 0), (10, 5, 5)), 1, 1);
    assert_eq!(
        bin.empty_space_list,
        vec![space((5, 5, 0), (10, 10, 10)), space((5, 0, 5), (10, 10, 10))]
    );
}

#[test]
fn validation_errors() {
    let params = Params::default();
    let item = Item { width: 1, depth: 2, height: 3, group: 0 };
    let empty = ProblemSpec { params, bin: Cuboid::new(10, 10, 10), items: vec![] };
    assert_eq!(empty.validate(), Err(Error::NoBoxToBePack));
    let flat = ProblemSpec { params, bin: Cuboid::new(10, 0, 10), items: vec![item] };
    assert_eq!(flat.validate(), Err(Error::InvalidBinSpec));
    let good = ProblemSpec { params, bin: Cuboid::new(10, 10, 10), items: vec![item] };
    assert_eq!(good.validate(), Ok(()));
    assert_eq!(item.to_cuboid(), Cuboid::new(1, 2, 3));
}
