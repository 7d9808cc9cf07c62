use std::collections::HashMap;
use tract_parcel::nifti::{NIfTI1Data, NIfTI1Header, New};
use tract_parcel::propagate::{
    assign_label, fibers_inside, label_prob, observe, paint, resolve, run, score_of, select, Band,
    Scheme,
};
use tract_parcel::trackvis::{Fiber, Position};

const WHITE: f32 = 2.0;

fn at(x: i32, y: i32, z: i32) -> Position {
    Position { x, y, z }
}

fn cube(n: u16, values: &[(Position, f32)]) -> NIfTI1Data {
    let side = n as usize;
    let mut cells = vec![WHITE.to_bits(); side * side * side];
    for (p, v) in values {
        cells[(p.z as usize * side + p.y as usize) * side + p.x as usize] = v.to_bits();
    }
    NIfTI1Data::from_cells(n, n, n, 1, cells).unwrap()
}

fn header_of(n: u16) -> NIfTI1Header {
    NIfTI1Header {
        sizeof_hdr: 348,
        data_type: [0; 10],
        db_name: [0; 18],
        extents: 0,
        session_error: 0,
        regular: 0,
        dim_info: 0,
        dim: [3, n, n, n, 1, 1, 1, 1],
        intent_p1: 0,
        intent_p2: 0,
        intent_p3: 0,
        intent_code: 0,
        datatype: 16,
        bitpix: 32,
        slice_start: 0,
        pixdim: [1.0f32.to_bits(); 8],
        vox_offset: 352.0f32.to_bits(),
        scl_slope: 0,
        scl_inter: 0,
        slice_end: 0,
        slice_code: 0,
        xyzt_units: 0,
        cal_max: 0,
        cal_min: 0,
        slice_duration: 0,
        toffset: 0,
        glmax: 0,
        glmin: 0,
        descrip: [0; 80],
        aux_file: [0; 24],
        qform_code: 0,
        sform_code: 0,
        quatern_b: 0,
        quatern_c: 0,
        quatern_d: 0,
        qoffset_x: 0,
        qoffset_y: 0,
        qoffset_z: 0,
        srow_x: [0; 4],
        srow_y: [0; 4],
        srow_z: [0; 4],
        intent_name: [0; 16],
        magic: [b'n', b'+', b'1', 0],
    }
}

fn rel_dist(x: f32, y: f32, z: f32) -> f32 {
    (x * x + y * y + z * z).sqrt()
}

fn share(labels: &[i32], label: i32) -> f32 {
    let count = labels.iter().filter(|&&l| l == label).count();
    count as f32 / labels.len() as f32
}

/// The propagation in the machine's own single precision, with a hash map
/// of observations, to hold the library's results against.
fn by_the_machine(grid: &NIfTI1Data, fibers: &[Fiber]) -> HashMap<Position, i32> {
    let value = |p: &Position| {
        f32::from_bits(grid.get(0, p.z as usize, p.y as usize, p.x as usize))
    };
    let mut lists: HashMap<Position, Vec<i32>> = HashMap::new();
    for fiber in fibers {
        let mut label = -1.0f32;
        for p in fiber {
            let v = value(p);
            if (v >= 1001.0 && v <= 1035.0) || (v >= 2001.0 && v <= 2035.0) {
                label = v;
            }
        }
        if label > -1.0 {
            for p in fiber {
                lists.entry(*p).or_default().push(label as i32);
            }
        }
    }
    let mut chosen = HashMap::new();
    for (p, labels) in lists.iter() {
        let mut highest = 0f32;
        let mut best = 0;
        for &label in labels {
            let own = share(labels, label);
            let mut near = 0f32;
            let mut count = 0i32;
            for dz in -1..1 {
                for dy in -1..1 {
                    for dx in -1..1 {
                        if dx == 0 && dy == 0 && dz == 0 {
                            continue;
                        }
                        if let Some(other) = lists.get(&at(p.x + dx, p.y + dy, p.z + dz)) {
                            let np = share(other, label);
                            if np > 0.0 {
                                near += (1.0 / rel_dist(dx as f32, dy as f32, dz as f32)) * np;
                                count += 1;
                            }
                        }
                    }
                }
            }
            if count == 0 {
                near = 0.0;
            } else {
                near /= count as f32;
            }
            if own + near > highest {
                highest = own + near;
                best = label;
            }
        }
        let v = value(p);
        let fillable = [2.0f32, 41.0, 251.0, 252.0, 253.0, 254.0, 255.0].contains(&v);
        if best > 0 && fillable {
            chosen.insert(*p, best);
        }
    }
    chosen
}

#[test]
fn two_streamlines_meeting_in_a_voxel_are_resolved_by_their_scores() {
    let grid = cube(3, &[(at(0, 0, 0), 1001.0), (at(2, 2, 2), 2005.0)]);
    let fibers: Vec<Fiber> =
        vec![vec![at(0, 0, 0), at(1, 1, 1)], vec![at(1, 1, 1), at(2, 2, 2)]];
    let scheme = Scheme::standard();
    let obs = observe(&scheme, &grid, &fibers);
    assert_eq!(obs.list(at(0, 0, 0)), Some(&vec![1001]));
    assert_eq!(obs.list(at(1, 1, 1)), Some(&vec![1001, 2005]));
    assert_eq!(obs.list(at(2, 2, 2)), Some(&vec![2005]));
    assert_eq!(obs.list(at(1, 1, 0)), None);
    let weight = 1.0f32 / 3.0f32.sqrt();
    assert_eq!(score_of(&obs, at(1, 1, 1), 1001), (0.5f32 + weight * 1.0).to_bits());
    assert_eq!(score_of(&obs, at(1, 1, 1), 1001), 0x3F89_E69D);
    assert_eq!(score_of(&obs, at(1, 1, 1), 2005), 0.5f32.to_bits());
    assert_eq!(score_of(&obs, at(2, 2, 2), 2005), (1.0f32 + weight * 0.5).to_bits());
    assert_eq!(score_of(&obs, at(0, 0, 0), 1001), 1.0f32.to_bits());
    assert_eq!(resolve(&obs, at(1, 1, 1)), 1001);
    assert_eq!(resolve(&obs, at(2, 2, 2)), 2005);
    assert_eq!(resolve(&obs, at(0, 0, 0)), 1001);
    assert_eq!(run(&scheme, &grid, &fibers), vec![(at(1, 1, 1), 1001)]);
}

#[test]
fn neighbours_average_their_weighted_shares() {
    let grid = cube(3, &[(at(0, 0, 0), 1001.0), (at(0, 2, 0), 1002.0)]);
    let fibers: Vec<Fiber> = vec![
        vec![at(0, 0, 0), at(0, 1, 1), at(1, 1, 1)],
        vec![at(0, 2, 0), at(1, 0, 1), at(1, 1, 1), at(1, 1, 0)],
        vec![at(0, 0, 0), at(1, 1, 0), at(1, 0, 1)],
        vec![at(0, 0, 0), at(1, 0, 1)],
    ];
    let scheme = Scheme::standard();
    let obs = observe(&scheme, &grid, &fibers);
    assert_eq!(obs.list(at(1, 1, 1)), Some(&vec![1001, 1002]));
    assert_eq!(obs.list(at(0, 1, 1)), Some(&vec![1001]));
    assert_eq!(obs.list(at(1, 0, 1)), Some(&vec![1002, 1001, 1001]));
    assert_eq!(obs.list(at(1, 1, 0)), Some(&vec![1002, 1001]));
    let root2 = 1.0f32 / 2.0f32.sqrt();
    let root3 = 1.0f32 / 3.0f32.sqrt();
    let mut near = 0.0f32;
    near += root3 * 1.0;
    near += 1.0 * 0.5;
    near += 1.0 * (2.0f32 / 3.0);
    near += 1.0 * 1.0;
    near /= 4.0;
    assert_eq!(score_of(&obs, at(1, 1, 1), 1001), (0.5f32 + near).to_bits());
    let mut near = 0.0f32;
    near += 1.0 * 0.5;
    near += 1.0 * (1.0f32 / 3.0);
    near /= 2.0;
    assert_eq!(score_of(&obs, at(1, 1, 1), 1002), (0.5f32 + near).to_bits());
    assert_eq!(resolve(&obs, at(1, 1, 1)), 1001);
    let mut near = 0.0f32;
    near += root2 * 1.0;
    near /= 1.0;
    assert_eq!(score_of(&obs, at(1, 1, 0), 1001), (0.5f32 + near).to_bits());
    assert_eq!(score_of(&obs, at(1, 1, 0), 1002), 0.5f32.to_bits());
    assert_eq!(by_the_machine(&grid, &fibers).get(&at(1, 1, 1)), Some(&1001));
}

#[test]
fn only_the_seven_neighbours_behind_a_voxel_take_part() {
    let grid = cube(3, &[(at(0, 0, 0), 1001.0), (at(2, 2, 2), 1002.0)]);
    let ahead: Vec<Fiber> = vec![
        vec![at(0, 0, 0), at(1, 1, 1)],
        vec![at(2, 2, 2), at(1, 1, 1)],
        vec![at(2, 2, 2), at(2, 1, 1)],
        vec![at(2, 2, 2), at(1, 2, 1)],
        vec![at(2, 2, 2), at(1, 1, 2)],
    ];
    let scheme = Scheme::standard();
    let obs = observe(&scheme, &grid, &ahead);
    assert_eq!(score_of(&obs, at(1, 1, 1), 1001), (0.5f32 + 1.0 / 3.0f32.sqrt()).to_bits());
    assert_eq!(score_of(&obs, at(1, 1, 1), 1002), 0.5f32.to_bits());
    assert_eq!(resolve(&obs, at(1, 1, 1)), 1001);
    let behind: Vec<Fiber> = vec![
        vec![at(0, 0, 0), at(1, 1, 1)],
        vec![at(2, 2, 2), at(1, 1, 1)],
        vec![at(2, 2, 2), at(0, 1, 1)],
    ];
    let obs = observe(&scheme, &grid, &behind);
    assert_eq!(score_of(&obs, at(1, 1, 1), 1002), 1.5f32.to_bits());
    assert_eq!(resolve(&obs, at(1, 1, 1)), 1002);
}

#[test]
fn of_equal_scores_the_first_observed_wins() {
    let grid = cube(3, &[(at(0, 0, 0), 1002.0), (at(2, 2, 2), 1001.0)]);
    let scheme = Scheme::standard();
    let one: Vec<Fiber> = vec![vec![at(0, 0, 0), at(2, 0, 0)], vec![at(2, 2, 2), at(2, 0, 0)]];
    let other: Vec<Fiber> = vec![vec![at(2, 2, 2), at(2, 0, 0)], vec![at(0, 0, 0), at(2, 0, 0)]];
    assert_eq!(run(&scheme, &grid, &one), vec![(at(2, 0, 0), 1002)]);
    assert_eq!(run(&scheme, &grid, &other), vec![(at(2, 0, 0), 1001)]);
}

#[test]
fn the_higher_score_wins_wherever_it_was_observed() {
    let grid = cube(3, &[(at(0, 0, 0), 1002.0), (at(2, 2, 2), 1001.0)]);
    let scheme = Scheme::standard();
    let fibers: Vec<Fiber> = vec![
        vec![at(0, 0, 0), at(2, 0, 0)],
        vec![at(2, 2, 2), at(2, 0, 0)],
        vec![at(2, 2, 2), at(2, 0, 0)],
    ];
    let obs = observe(&scheme, &grid, &fibers);
    assert_eq!(obs.list(at(2, 0, 0)), Some(&vec![1002, 1001, 1001]));
    assert_eq!(score_of(&obs, at(2, 0, 0), 1002), (1.0f32 / 3.0).to_bits());
    assert_eq!(score_of(&obs, at(2, 0, 0), 1001), (2.0f32 / 3.0).to_bits());
    assert_eq!(resolve(&obs, at(2, 0, 0)), 1001);
}

#[test]
fn a_single_observed_label_has_share_one_and_wins() {
    let grid = cube(3, &[(at(0, 0, 0), 2035.0), (at(0, 1, 0), 1001.0)]);
    let scheme = Scheme::standard();
    let fibers: Vec<Fiber> = vec![
        vec![at(0, 0, 0), at(1, 1, 1)],
        vec![at(0, 0, 0), at(1, 1, 1)],
        vec![at(0, 1, 0), at(0, 1, 1)],
        vec![at(0, 1, 0), at(1, 0, 1)],
        vec![at(0, 1, 0), at(1, 1, 0)],
    ];
    let obs = observe(&scheme, &grid, &fibers);
    assert_eq!(label_prob(obs.list(at(1, 1, 1)).unwrap(), 2035), 1.0f32.to_bits());
    assert_eq!(score_of(&obs, at(1, 1, 1), 2035), (1.0f32 + 1.0 / 3.0f32.sqrt()).to_bits());
    let mut near = 0.0f32;
    near += (1.0f32 / 2.0f32.sqrt()) * 1.0;
    near += 1.0 * 1.0;
    near += 1.0 * 1.0;
    near += 1.0 * 1.0;
    near /= 4.0;
    assert_eq!(score_of(&obs, at(1, 1, 1), 1001), (0.0f32 + near).to_bits());
    assert_eq!(resolve(&obs, at(1, 1, 1)), 2035);
    assert!(run(&scheme, &grid, &fibers).contains(&(at(1, 1, 1), 2035)));
}

#[test]
fn shares_are_counts_over_totals() {
    assert_eq!(label_prob(&vec![1001, 1002, 1002], 1002), 0x3F2A_AAAB);
    assert_eq!(label_prob(&vec![1001, 1002, 1002], 1001), 0x3EAA_AAAB);
    assert_eq!(label_prob(&vec![1001, 1002, 1002], 1003), 0);
    assert_eq!(label_prob(&vec![5; 7], 5), 0x3F80_0000);
    assert_eq!(label_prob(&vec![1, 2, 3, 4], 3), 0.25f32.to_bits());
    let mut many = vec![9; 1000];
    many.extend(vec![8; 2000]);
    assert_eq!(label_prob(&many, 9), (1000.0f32 / 3000.0).to_bits());
    assert_eq!(label_prob(&many, 8), (2000.0f32 / 3000.0).to_bits());
}

#[test]
fn a_streamline_takes_the_label_of_its_last_cortical_voxel() {
    let grid = cube(
        3,
        &[(at(0, 0, 0), 1001.0), (at(1, 0, 0), 2035.0), (at(2, 0, 0), 1035.0), (at(0, 1, 0), 41.0)],
    );
    let scheme = Scheme::standard();
    assert_eq!(assign_label(&scheme, &grid, &vec![at(0, 0, 0), at(1, 0, 0), at(1, 1, 1)]),
        Some(2035));
    assert_eq!(assign_label(&scheme, &grid, &vec![at(1, 0, 0), at(1, 1, 1), at(0, 0, 0)]),
        Some(1001));
    assert_eq!(assign_label(&scheme, &grid, &vec![at(2, 0, 0)]), Some(1035));
    assert_eq!(assign_label(&scheme, &grid, &vec![at(0, 1, 0), at(1, 1, 1)]), None);
    assert_eq!(assign_label(&scheme, &grid, &vec![]), None);
}

#[test]
fn the_cortical_bands_are_closed_ranges_of_numbers() {
    let scheme = Scheme::standard();
    for v in [1001.0f32, 1001.5, 1035.0, 2001.0, 2018.25, 2035.0] {
        assert!(scheme.is_cortical(v.to_bits()), "{}", v);
    }
    for v in [1000.999f32, 1035.0001, 2000.0, 2035.5, 0.0, -1001.0, 2.0, f32::NAN, f32::INFINITY] {
        assert!(!scheme.is_cortical(v.to_bits()), "{}", v);
    }
    let grid = cube(3, &[(at(0, 0, 0), 1001.75), (at(1, 0, 0), 2034.999)]);
    assert_eq!(assign_label(&scheme, &grid, &vec![at(0, 0, 0)]), Some(1001));
    assert_eq!(assign_label(&scheme, &grid, &vec![at(1, 0, 0)]), Some(2034));
}

#[test]
fn the_codes_that_may_be_filled_are_the_standard_ones() {
    let scheme = Scheme::standard();
    for v in [2.0f32, 41.0, 251.0, 252.0, 253.0, 254.0, 255.0] {
        assert!(scheme.is_fillable(v.to_bits()), "{}", v);
    }
    for v in [0.0f32, 1.0, 2.5, 3.0, 40.0, 42.0, 250.0, 256.0, 1001.0, -2.0, f32::NAN] {
        assert!(!scheme.is_fillable(v.to_bits()), "{}", v);
    }
}

#[test]
fn a_streamline_without_cortical_voxels_leaves_no_observations() {
    let grid = cube(3, &[(at(0, 0, 0), 1001.0), (at(2, 2, 2), 3.0)]);
    let scheme = Scheme::standard();
    let fibers: Vec<Fiber> = vec![vec![at(1, 1, 1), at(2, 2, 2), at(1, 2, 1)]];
    let obs = observe(&scheme, &grid, &fibers);
    for z in 0..3 {
        for y in 0..3 {
            for x in 0..3 {
                assert_eq!(obs.list(at(x, y, z)), None);
            }
        }
    }
    assert!(run(&scheme, &grid, &fibers).is_empty());
    let with: Vec<Fiber> = vec![vec![at(0, 0, 0), at(1, 1, 1)], fibers[0].clone()];
    let without: Vec<Fiber> = vec![vec![at(0, 0, 0), at(1, 1, 1)]];
    assert_eq!(run(&scheme, &grid, &with), run(&scheme, &grid, &without));
    assert_eq!(observe(&scheme, &grid, &with).list(at(1, 1, 1)), Some(&vec![1001]));
}

#[test]
fn every_visit_of_a_voxel_leaves_an_observation() {
    let grid = cube(3, &[(at(0, 0, 0), 1001.0)]);
    let scheme = Scheme::standard();
    let fibers: Vec<Fiber> = vec![vec![at(0, 0, 0), at(1, 1, 1), at(1, 1, 1), at(0, 0, 0), at(1, 1,
        1)]];
    let obs = observe(&scheme, &grid, &fibers);
    assert_eq!(obs.list(at(1, 1, 1)), Some(&vec![1001, 1001, 1001]));
    assert_eq!(obs.list(at(0, 0, 0)), Some(&vec![1001, 1001]));
}

#[test]
fn only_voxels_that_may_be_filled_are_given_labels() {
    let grid = cube(
        3,
        &[
            (at(0, 0, 0), 1001.0),
            (at(1, 0, 0), 3.0),
            (at(2, 0, 0), 41.0),
            (at(0, 1, 0), 255.0),
            (at(1, 1, 0), 0.0),
            (at(2, 1, 0), 2.5),
        ],
    );
    let scheme = Scheme::standard();
    let fibers: Vec<Fiber> = vec![vec![
        at(0, 0, 0),
        at(1, 0, 0),
        at(2, 0, 0),
        at(0, 1, 0),
        at(1, 1, 0),
        at(2, 1, 0),
        at(1, 1, 1),
    ]];
    let labels = run(&scheme, &grid, &fibers);
    assert_eq!(labels, vec![(at(2, 0, 0), 1001), (at(0, 1, 0), 1001), (at(1, 1, 1), 1001)]);
    let mut out = NIfTI1Data::init(&header_of(3));
    paint(&mut out, &labels);
    for z in 0..3usize {
        for y in 0..3usize {
            for x in 0..3usize {
                let p = at(x as i32, y as i32, z as i32);
                let expect = if labels.iter().any(|(q, _)| *q == p) { 1001.0f32 } else { 0.0 };
                assert_eq!(out.get(0, z, y, x), expect.to_bits());
            }
        }
    }
}

#[test]
fn painting_leaves_other_voxels_as_they_were() {
    let mut grid = cube(3, &[(at(0, 0, 0), 1001.0), (at(2, 2, 2), 77.0)]);
    paint(&mut grid, &vec![(at(1, 2, 0), 2035), (at(2, 2, 2), 1), (at(1, 2, 0), 1017)]);
    assert_eq!(grid.get(0, 0, 2, 1), 1017.0f32.to_bits());
    assert_eq!(grid.get(0, 2, 2, 2), 1.0f32.to_bits());
    assert_eq!(grid.get(0, 0, 0, 0), 1001.0f32.to_bits());
    let untouched = grid.cells().iter().filter(|&&c| c == WHITE.to_bits()).count();
    assert_eq!(untouched, 24);
}

#[test]
fn selection_walks_the_grid_in_storage_order() {
    let grid = cube(3, &[(at(0, 0, 0), 1001.0)]);
    let scheme = Scheme::standard();
    let fibers: Vec<Fiber> = vec![vec![at(0, 0, 0), at(2, 2, 2), at(0, 0, 1), at(1, 0, 0), at(0, 2,
        0)]];
    let obs = observe(&scheme, &grid, &fibers);
    assert_eq!(
        select(&scheme, &grid, &obs),
        vec![(at(1, 0, 0), 1001), (at(0, 2, 0), 1001), (at(0, 0, 1), 1001), (at(2, 2, 2), 1001)]
    );
}

#[test]
fn points_outside_the_grid_are_found() {
    let grid = cube(3, &[]);
    assert!(fibers_inside(&grid, &vec![vec![at(0, 0, 0), at(2, 2, 2)], vec![]]));
    assert!(!fibers_inside(&grid, &vec![vec![at(0, 0, 0)], vec![at(3, 0, 0)]]));
    assert!(!fibers_inside(&grid, &vec![vec![at(0, -1, 0)]]));
    assert!(!fibers_inside(&grid, &vec![vec![at(0, 0, i32::MAX)]]));
    assert!(!fibers_inside(&grid, &vec![vec![at(i32::MIN, 0, 0)]]));
    let flat = NIfTI1Data::from_cells(3, 3, 3, 0, vec![]).unwrap();
    assert!(!fibers_inside(&flat, &vec![vec![at(0, 0, 0)]]));
    assert!(fibers_inside(&flat, &vec![vec![]]));
}

#[test]
fn another_scheme_gives_other_labels() {
    let scheme = Scheme {
        left: Band { low: 10.0f32.to_bits(), high: 19.0f32.to_bits() },
        right: Band { low: 30.0f32.to_bits(), high: 39.0f32.to_bits() },
        fillable: vec![5.0f32.to_bits()],
    };
    let grid = cube(3, &[(at(0, 0, 0), 12.0), (at(1, 0, 0), 5.0), (at(2, 0, 0), 25.0)]);
    let fibers: Vec<Fiber> =
        vec![vec![at(0, 0, 0), at(1, 0, 0), at(2, 0, 0), at(1, 1, 1)]];
    assert_eq!(run(&scheme, &grid, &fibers), vec![(at(1, 0, 0), 12)]);
    assert!(run(&Scheme::standard(), &grid, &fibers).is_empty());
}

#[test]
fn the_library_agrees_with_the_machines_single_precision() {
    let mut state: u64 = 2024;
    let mut next = move |n: u32| {
        state = state.wrapping_mul(6364136223846793005).wrapping_add(1442695040888963407);
        ((state >> 33) as u32) % n
    };
    let palette = [
        2.0f32, 2.0, 2.0, 41.0, 41.0, 251.0, 255.0, 0.0, 3.0, 1001.0, 1002.0, 1003.0, 1035.0,
        2001.0, 2002.0, 2035.0, 1017.5,
    ];
    for round in 0..30 {
        let n: u16 = 4 + (round % 3) as u16;
        let mut values = Vec::new();
        for z in 0..n as i32 {
            for y in 0..n as i32 {
                for x in 0..n as i32 {
                    values.push((at(x, y, z), palette[next(palette.len() as u32) as usize]));
                }
            }
        }
        let grid = cube(n, &values);
        let mut fibers: Vec<Fiber> = Vec::new();
        for _ in 0..(10 + next(40)) {
            let mut p = at(next(n as u32) as i32, next(n as u32) as i32, next(n as u32) as i32);
            let mut fiber = vec![p];
            for _ in 0..next(12) {
                let step = |c: i32, d: u32| (c + d as i32 - 1).clamp(0, n as i32 - 1);
                p = at(step(p.x, next(3)), step(p.y, next(3)), step(p.z, next(3)));
                fiber.push(p);
            }
            fibers.push(fiber);
        }
        assert!(fibers_inside(&grid, &fibers));
        let ours: HashMap<Position, i32> =
            run(&Scheme::standard(), &grid, &fibers).into_iter().collect();
        assert_eq!(ours, by_the_machine(&grid, &fibers), "round {}", round);
    }
}

#[test]
fn shares_lie_between_zero_and_one_and_make_up_the_whole() {
    let mut state: u64 = 77;
    let mut next = move |n: u32| {
        state = state.wrapping_mul(6364136223846793005).wrapping_add(1442695040888963407);
        ((state >> 33) as u32) % n
    };
    for _ in 0..200 {
        let kinds = 1 + next(6) as i32;
        let list: Vec<i32> = (0..1 + next(60)).map(|_| 1001 + next(kinds as u32) as i32).collect();
        let mut whole = 0.0f64;
        let mut counted = 0usize;
        for label in 1001..1001 + kinds {
            let bits = label_prob(&list, label);
            let share = f32::from_bits(bits);
            let count = list.iter().filter(|&&l| l == label).count();
            assert!(bits <= 0x3F80_0000);
            assert!((0.0..=1.0).contains(&share));
            assert_eq!(bits, (count as f32 / list.len() as f32).to_bits());
            whole += share as f64;
            counted += count;
        }
        assert_eq!(counted, list.len());
        assert!((whole - 1.0).abs() < 1e-6);
    }
}

#[test]
fn written_labels_are_read_back_from_the_output_volume() {
    let grid = cube(3, &[(at(0, 0, 0), 1001.0), (at(2, 2, 2), 2005.0)]);
    let fibers: Vec<Fiber> =
        vec![vec![at(0, 0, 0), at(1, 1, 1)], vec![at(1, 1, 1), at(2, 2, 2), at(2, 1, 2)]];
    let labels = run(&Scheme::standard(), &grid, &fibers);
    assert_eq!(labels, vec![(at(1, 1, 1), 1001), (at(2, 1, 2), 2005)]);
    let header = header_of(3);
    let mut out = NIfTI1Data::init(&header);
    paint(&mut out, &labels);
    let bytes = tract_parcel::nifti::write(header, out);
    let (h, back) = tract_parcel::nifti::read(&bytes).unwrap();
    assert_eq!(h, header);
    assert_eq!(back.get(0, 1, 1, 1), 1001.0f32.to_bits());
    assert_eq!(back.get(0, 2, 1, 2), 2005.0f32.to_bits());
    assert_eq!(back.cells().iter().filter(|&&c| c != 0).count(), 2);
}

#[test]
fn a_choice_that_is_not_positive_is_given_to_no_voxel() {
    let nothing = Scheme {
        left: Band { low: 0.0f32.to_bits(), high: 0.9f32.to_bits() },
        right: Band { low: (-20.0f32).to_bits(), high: (-10.0f32).to_bits() },
        fillable: vec![5.0f32.to_bits()],
    };
    let grid = cube(3, &[(at(0, 0, 0), 0.5), (at(1, 0, 0), 5.0), (at(2, 0, 0), -12.0), (at(1, 1, 1),
        5.0)]);
    let low: Vec<Fiber> = vec![vec![at(0, 0, 0), at(1, 0, 0)]];
    let obs = observe(&nothing, &grid, &low);
    assert_eq!(obs.list(at(1, 0, 0)), Some(&vec![0]));
    assert_eq!(resolve(&obs, at(1, 0, 0)), 0);
    assert!(run(&nothing, &grid, &low).is_empty());
    let negative: Vec<Fiber> = vec![vec![at(2, 0, 0), at(1, 1, 1)]];
    let obs = observe(&nothing, &grid, &negative);
    assert_eq!(obs.list(at(1, 1, 1)), Some(&vec![-12]));
    assert_eq!(resolve(&obs, at(1, 1, 1)), -12);
    assert!(run(&nothing, &grid, &negative).is_empty());
}
