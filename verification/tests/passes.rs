use bevy_jfa::coverage::{CoverageBuffer, FULLY_COVERED};
use bevy_jfa::dimensions::{Dimensions, MAX_EXTENT};
use bevy_jfa::error::OutlineError;
use bevy_jfa::jfa::{dist2, jump_flood_pass, nearest_candidate, pick_closer};
use bevy_jfa::mask::{mask_pass, Fragment};
use bevy_jfa::pingpong::{PingPong, Slot};
use bevy_jfa::seed::{seed_init, seed_init_into, SeedBuffer, Texel};
use bevy_jfa::steps::{
    jump_distance_index, jump_distance_table, step_sequence, JUMP_DISTANCE_COUNT,
};

fn coverage_with(width: u32, height: u32, covered: &[(u32, u32)]) -> CoverageBuffer {
    let mut coverage = CoverageBuffer::new(Dimensions::new(width, height)).unwrap();
    for &(x, y) in covered {
        coverage.cover(x, y);
    }
    coverage
}

#[test]
fn dimensions_report_their_extent() {
    let dims = Dimensions::new(640, 480);
    assert_eq!(dims.width(), 640);
    assert_eq!(dims.height(), 480);
    assert_eq!(dims.pixel_count(), 307_200);
    assert_eq!(dims.max_extent(), 640);
    assert!(dims.contains(639, 479));
    assert!(!dims.contains(640, 0));
    assert!(!dims.contains(0, 480));
    assert_eq!(dims.index(3, 2), 2 * 640 + 3);
    assert_eq!(Dimensions::new(3, 9).max_extent(), 9);
}

#[test]
fn dimensions_know_what_is_encodable() {
    assert!(Dimensions::new(MAX_EXTENT, MAX_EXTENT).encodable());
    assert!(!Dimensions::new(MAX_EXTENT + 1, 1).encodable());
    assert!(!Dimensions::new(1, MAX_EXTENT + 1).encodable());
    assert!(Dimensions::new(0, 0).encodable());
}

#[test]
fn coverage_starts_blank_and_clips() {
    let mut coverage = CoverageBuffer::new(Dimensions::new(4, 3)).unwrap();
    for y in 0..3 {
        for x in 0..4 {
            assert!(!coverage.is_covered(x, y));
        }
    }
    coverage.cover(4, 0);
    coverage.cover(0, 3);
    for y in 0..3 {
        for x in 0..4 {
            assert!(!coverage.is_covered(x, y));
        }
    }
    assert!(!coverage.is_covered(4, 0));
    assert!(CoverageBuffer::new(Dimensions::new(MAX_EXTENT + 1, 1)).is_none());
}

#[test]
fn only_full_coverage_counts_as_covered() {
    let mut coverage = CoverageBuffer::new(Dimensions::new(3, 1)).unwrap();
    coverage.store(0, 0, 254);
    coverage.store(1, 0, FULLY_COVERED);
    coverage.store(2, 0, 128);
    coverage.store(3, 0, FULLY_COVERED);
    assert_eq!(coverage.value_at(0, 0), 254);
    assert_eq!(coverage.value_at(1, 0), 255);
    assert_eq!(coverage.value_at(2, 0), 128);
    assert_eq!(coverage.value_at(3, 0), 0);
    assert!(!coverage.is_covered(0, 0));
    assert!(coverage.is_covered(1, 0));
    assert!(!coverage.is_covered(2, 0));
    let seeds = seed_init(&coverage);
    assert_eq!(seeds.get(0, 0), Texel::Sentinel);
    assert_eq!(seeds.get(1, 0), Texel::Seed { x: 1, y: 0 });
    assert_eq!(seeds.get(2, 0), Texel::Sentinel);
    coverage.cover(0, 0);
    assert_eq!(coverage.value_at(0, 0), FULLY_COVERED);
    coverage.clear();
    assert_eq!(coverage.value_at(1, 0), 0);
}

#[test]
fn covering_twice_is_covering_once() {
    let mut once = CoverageBuffer::new(Dimensions::new(4, 3)).unwrap();
    let mut twice = CoverageBuffer::new(Dimensions::new(4, 3)).unwrap();
    once.cover(1, 2);
    twice.cover(1, 2);
    twice.cover(1, 2);
    for y in 0..3 {
        for x in 0..4 {
            assert_eq!(once.is_covered(x, y), twice.is_covered(x, y));
            assert_eq!(once.is_covered(x, y), (x, y) == (1, 2));
        }
    }
    twice.clear();
    assert!(!twice.is_covered(1, 2));
}

#[test]
fn mask_pass_marks_touched_pixels_only() {
    let mut coverage = coverage_with(5, 4, &[(0, 0), (4, 3)]);
    let fragments = vec![
        Fragment { x: 1, y: 1 },
        Fragment { x: 2, y: 1 },
        Fragment { x: 1, y: 1 },
        Fragment { x: 9, y: 9 },
    ];
    mask_pass(&mut coverage, &fragments);
    for y in 0..4 {
        for x in 0..5 {
            assert_eq!(coverage.is_covered(x, y), (x, y) == (1, 1) || (x, y) == (2, 1));
        }
    }
    mask_pass(&mut coverage, &Vec::new());
    for y in 0..4 {
        for x in 0..5 {
            assert!(!coverage.is_covered(x, y));
        }
    }
}

#[test]
fn seed_init_stores_own_coordinate_or_sentinel() {
    let coverage = coverage_with(4, 3, &[(1, 2), (3, 0)]);
    let seeds = seed_init(&coverage);
    assert_eq!(seeds.dimensions(), Dimensions::new(4, 3));
    for y in 0..3 {
        for x in 0..4 {
            let expected = if (x, y) == (1, 2) || (x, y) == (3, 0) {
                Texel::Seed { x, y }
            } else {
                Texel::Sentinel
            };
            assert_eq!(seeds.get(x, y), expected);
        }
    }
    assert_eq!(seeds.get(4, 0), Texel::Sentinel);
}

#[test]
fn seed_init_is_deterministic() {
    let coverage = coverage_with(6, 5, &[(0, 0), (5, 4), (2, 3), (2, 3)]);
    let first = seed_init(&coverage);
    let second = seed_init(&coverage);
    let mut third = SeedBuffer::new(Dimensions::new(6, 5)).unwrap();
    third.store(4, 4, Texel::Seed { x: 1, y: 1 });
    assert_eq!(seed_init_into(&coverage, &mut third), Ok(()));
    for y in 0..5 {
        for x in 0..6 {
            assert_eq!(first.get(x, y), second.get(x, y));
            assert_eq!(first.get(x, y), third.get(x, y));
        }
    }
}

#[test]
fn seed_buffer_drops_invalid_writes_and_clamps_reads() {
    let mut seeds = SeedBuffer::new(Dimensions::new(3, 2)).unwrap();
    seeds.store(0, 0, Texel::Seed { x: 2, y: 1 });
    seeds.store(2, 1, Texel::Seed { x: 0, y: 0 });
    seeds.store(1, 1, Texel::Seed { x: 3, y: 0 });
    seeds.store(3, 0, Texel::Seed { x: 0, y: 0 });
    assert_eq!(seeds.get(0, 0), Texel::Seed { x: 2, y: 1 });
    assert_eq!(seeds.get(2, 1), Texel::Seed { x: 0, y: 0 });
    assert_eq!(seeds.get(1, 1), Texel::Sentinel);
    assert_eq!(seeds.sample(-5, -1), Texel::Seed { x: 2, y: 1 });
    assert_eq!(seeds.sample(7, 9), Texel::Seed { x: 0, y: 0 });
    assert_eq!(seeds.sample(1, 1), Texel::Sentinel);
    seeds.store(0, 0, Texel::Sentinel);
    assert_eq!(seeds.get(0, 0), Texel::Sentinel);
    let empty = SeedBuffer::new(Dimensions::new(0, 4)).unwrap();
    assert_eq!(empty.sample(0, 0), Texel::Sentinel);
    assert!(SeedBuffer::new(Dimensions::new(1, MAX_EXTENT + 1)).is_none());
}

#[test]
fn texels_round_trip_through_their_channels() {
    assert_eq!(Texel::Sentinel.encode(), Some((-1, -1)));
    assert_eq!(Texel::Seed { x: 0, y: 0 }.encode(), Some((0, 0)));
    assert_eq!(Texel::Seed { x: 640, y: 479 }.encode(), Some((640, 479)));
    assert_eq!(Texel::Seed { x: 32767, y: 32767 }.encode(), Some((32767, 32767)));
    assert_eq!(Texel::Seed { x: 32768, y: 0 }.encode(), None);
    assert_eq!(Texel::Seed { x: 0, y: 70000 }.encode(), None);
    assert_eq!(Texel::decode((-1, -1)), Texel::Sentinel);
    assert_eq!(Texel::decode((-1, 5)), Texel::Sentinel);
    assert_eq!(Texel::decode((5, -32768)), Texel::Sentinel);
    assert_eq!(Texel::decode((640, 479)), Texel::Seed { x: 640, y: 479 });
    for texel in [Texel::Sentinel, Texel::Seed { x: 17, y: 4 }, Texel::Seed { x: 32767, y: 0 }] {
        assert_eq!(Texel::decode(texel.encode().unwrap()), texel);
    }
}

#[test]
fn step_sequence_halves_down_to_one() {
    assert_eq!(step_sequence(0), vec![1]);
    assert_eq!(step_sequence(1), vec![1]);
    assert_eq!(step_sequence(2), vec![1]);
    assert_eq!(step_sequence(3), vec![2, 1]);
    assert_eq!(step_sequence(4), vec![2, 1]);
    assert_eq!(step_sequence(5), vec![4, 2, 1]);
    assert_eq!(step_sequence(512), vec![256, 128, 64, 32, 16, 8, 4, 2, 1]);
    assert_eq!(step_sequence(513), vec![512, 256, 128, 64, 32, 16, 8, 4, 2, 1]);
    assert_eq!(step_sequence(1920)[0], 1024);
    assert_eq!(step_sequence(1920).len(), 11);
    assert_eq!(step_sequence(u32::MAX)[0], 1 << 31);
    assert_eq!(step_sequence(u32::MAX).len(), 32);
}

#[test]
fn step_sequence_is_valid_for_many_sizes() {
    for extent in 1..2000u32 {
        let steps = step_sequence(extent);
        let first = steps[0] as u64;
        assert!(first.is_power_of_two());
        assert!(2 * first >= extent as u64);
        assert!(first == 1 || first < extent as u64);
        assert_eq!(*steps.last().unwrap(), 1);
        for pair in steps.windows(2) {
            assert_eq!(pair[0], 2 * pair[1]);
        }
    }
}

#[test]
fn every_step_has_a_place_among_the_distances_held_ready() {
    let table = jump_distance_table();
    assert_eq!(table.len(), JUMP_DISTANCE_COUNT);
    assert_eq!(table.len(), 16);
    for (k, dist) in table.iter().enumerate() {
        assert_eq!(*dist, 1u32 << k);
        assert_eq!(jump_distance_index(*dist), Some(k));
    }
    assert_eq!(table[15], 32768);
    for step in [0u32, 3, 5, 6, 12, 1000, 32767, 65536, 1 << 31, u32::MAX] {
        assert_eq!(jump_distance_index(step), None);
    }
    for extent in [0u32, 1, 2, 3, 640, 1920, 4096, 16384, 16385, MAX_EXTENT] {
        for step in step_sequence(extent) {
            let index = jump_distance_index(step).unwrap();
            assert_eq!(table[index], step);
        }
    }
    assert_eq!(step_sequence(MAX_EXTENT)[0], 16384);
}

#[test]
fn passes_refuse_buffers_of_unequal_size() {
    let coverage = coverage_with(4, 3, &[(1, 1)]);
    let mut small = SeedBuffer::new(Dimensions::new(3, 3)).unwrap();
    small.store(2, 2, Texel::Seed { x: 0, y: 1 });
    assert_eq!(seed_init_into(&coverage, &mut small), Err(OutlineError::ResourceMismatch));
    assert_eq!(small.get(2, 2), Texel::Seed { x: 0, y: 1 });
    assert_eq!(small.get(1, 1), Texel::Sentinel);
    let seeds = seed_init(&coverage);
    assert_eq!(jump_flood_pass(&seeds, &mut small, 1), Err(OutlineError::ResourceMismatch));
    assert_eq!(small.get(2, 2), Texel::Seed { x: 0, y: 1 });
    assert_eq!(small.get(1, 1), Texel::Sentinel);
    assert_eq!(small.dimensions(), Dimensions::new(3, 3));
    let mut wide = SeedBuffer::new(Dimensions::new(3, 4)).unwrap();
    assert_eq!(jump_flood_pass(&seeds, &mut wide, 1), Err(OutlineError::ResourceMismatch));
}

#[test]
fn squared_distance_is_exact() {
    assert_eq!(dist2(0, 0, 0, 0), 0);
    assert_eq!(dist2(3, 0, 0, 4), 25);
    assert_eq!(dist2(0, 4, 3, 0), 25);
    assert_eq!(dist2(10, 10, 7, 10), 9);
    let far = u32::MAX as u128;
    assert_eq!(dist2(0, 0, u32::MAX, u32::MAX), 2 * far * far);
}

#[test]
fn closer_seed_wins_and_ties_keep_the_first() {
    let near = Texel::Seed { x: 4, y: 5 };
    let far = Texel::Seed { x: 9, y: 5 };
    let tie = Texel::Seed { x: 6, y: 5 };
    assert_eq!(pick_closer(5, 5, Texel::Sentinel, Texel::Sentinel), Texel::Sentinel);
    assert_eq!(pick_closer(5, 5, Texel::Sentinel, far), far);
    assert_eq!(pick_closer(5, 5, far, Texel::Sentinel), far);
    assert_eq!(pick_closer(5, 5, far, near), near);
    assert_eq!(pick_closer(5, 5, near, far), near);
    assert_eq!(pick_closer(5, 5, near, tie), near);
    assert_eq!(pick_closer(5, 5, tie, near), tie);
}

#[test]
fn one_pass_reaches_the_nine_samples() {
    let coverage = coverage_with(9, 9, &[(4, 4)]);
    let seeds = seed_init(&coverage);
    let mut out = SeedBuffer::new(Dimensions::new(9, 9)).unwrap();
    assert_eq!(jump_flood_pass(&seeds, &mut out, 2), Ok(()));
    for y in 0..9u32 {
        for x in 0..9u32 {
            let on_grid = (x == 2 || x == 4 || x == 6) && (y == 2 || y == 4 || y == 6);
            let expected = if on_grid { Texel::Seed { x: 4, y: 4 } } else { Texel::Sentinel };
            assert_eq!(out.get(x, y), expected);
            assert_eq!(nearest_candidate(&seeds, x, y, 2), expected);
        }
    }
}

#[test]
fn samples_outside_the_buffer_clamp_to_its_edge() {
    let coverage = coverage_with(4, 1, &[(0, 0)]);
    let seeds = seed_init(&coverage);
    assert_eq!(nearest_candidate(&seeds, 1, 0, 8), Texel::Seed { x: 0, y: 0 });
    assert_eq!(nearest_candidate(&seeds, 3, 0, 1), Texel::Sentinel);
    assert_eq!(nearest_candidate(&seeds, 1, 0, 1), Texel::Seed { x: 0, y: 0 });
}

#[test]
fn nearer_of_two_seeds_is_kept() {
    let coverage = coverage_with(8, 1, &[(0, 0), (5, 0)]);
    let mut pair = PingPong::new(Dimensions::new(8, 1)).unwrap();
    pair.seed(&coverage).unwrap();
    pair.flood();
    let expected = [0, 0, 0, 5, 5, 5, 5, 5];
    for x in 0..8u32 {
        let texel = pair.current_buffer().get(x, 0);
        assert_eq!(texel, Texel::Seed { x: expected[x as usize], y: 0 });
    }
}

#[test]
fn single_seed_converges_everywhere() {
    for (width, height, x0, y0) in [(7u32, 5u32, 2u32, 3u32), (1, 1, 0, 0), (16, 16, 15, 0), (33, 9, 0, 8), (5, 40, 4, 39)] {
        let coverage = coverage_with(width, height, &[(x0, y0)]);
        let mut pair = PingPong::new(Dimensions::new(width, height)).unwrap();
        pair.seed(&coverage).unwrap();
        pair.flood();
        let result = pair.current_buffer();
        for y in 0..height {
            for x in 0..width {
                let texel = result.get(x, y);
                assert_eq!(texel, Texel::Seed { x: x0, y: y0 });
                let dx = x as i64 - x0 as i64;
                let dy = y as i64 - y0 as i64;
                assert_eq!(dist2(x, y, x0, y0), (dx * dx + dy * dy) as u128);
            }
        }
    }
}

#[test]
fn empty_mask_stays_sentinel() {
    let coverage = coverage_with(12, 7, &[]);
    let mut pair = PingPong::new(Dimensions::new(12, 7)).unwrap();
    pair.seed(&coverage).unwrap();
    pair.flood();
    for slot in [Slot::Primary, Slot::Secondary] {
        for y in 0..7 {
            for x in 0..12 {
                assert_eq!(pair.buffer(slot).get(x, y), Texel::Sentinel);
            }
        }
    }
}

#[test]
fn covered_pixels_keep_their_own_coordinate() {
    let covered = [(1u32, 1u32), (2, 1), (3, 1), (2, 2), (9, 6)];
    let coverage = coverage_with(11, 8, &covered);
    let mut pair = PingPong::new(Dimensions::new(11, 8)).unwrap();
    pair.seed(&coverage).unwrap();
    pair.flood();
    for y in 0..8 {
        for x in 0..11 {
            match pair.current_buffer().get(x, y) {
                Texel::Sentinel => panic!("pixel ({x}, {y}) found no seed"),
                Texel::Seed { x: sx, y: sy } => {
                    assert!(covered.contains(&(sx, sy)));
                    if covered.contains(&(x, y)) {
                        assert_eq!((sx, sy), (x, y));
                    }
                }
            }
        }
    }
}

#[test]
fn flooded_distance_stays_within_the_bound() {
    let width = 37u32;
    let height = 23u32;
    let mut covered = Vec::new();
    let mut state = 12345u32;
    for _ in 0..17 {
        state = state.wrapping_mul(1_103_515_245).wrapping_add(12_345);
        let x = (state >> 16) % width;
        state = state.wrapping_mul(1_103_515_245).wrapping_add(12_345);
        let y = (state >> 16) % height;
        covered.push((x, y));
    }
    let coverage = coverage_with(width, height, &covered);
    let mut pair = PingPong::new(Dimensions::new(width, height)).unwrap();
    pair.seed(&coverage).unwrap();
    pair.flood();
    for y in 0..height {
        for x in 0..width {
            let (sx, sy) = match pair.current_buffer().get(x, y) {
                Texel::Seed { x: sx, y: sy } => (sx, sy),
                Texel::Sentinel => panic!("pixel ({x}, {y}) found no seed"),
            };
            assert!(covered.contains(&(sx, sy)));
            let found = dist2(x, y, sx, sy);
            let nearest = covered.iter().map(|&(cx, cy)| dist2(x, y, cx, cy)).min().unwrap();
            let along_axes = covered
                .iter()
                .map(|&(cx, cy)| (cx.abs_diff(x) + cy.abs_diff(y)) as u128)
                .min()
                .unwrap();
            assert!(found >= nearest);
            assert!(found <= along_axes * along_axes);
            assert!(found <= 2 * nearest);
        }
    }
}

#[test]
fn ping_pong_swaps_roles_every_pass() {
    let coverage = coverage_with(4, 4, &[(0, 0)]);
    let mut pair = PingPong::new(Dimensions::new(4, 4)).unwrap();
    assert_eq!(pair.selected(), Slot::Primary);
    assert_eq!(pair.dimensions(), Dimensions::new(4, 4));
    pair.seed(&coverage).unwrap();
    assert_eq!(pair.selected(), Slot::Primary);
    pair.step(2);
    assert_eq!(pair.selected(), Slot::Secondary);
    assert_eq!(pair.buffer(Slot::Primary).get(2, 2), Texel::Sentinel);
    assert_eq!(pair.buffer(Slot::Secondary).get(2, 2), Texel::Seed { x: 0, y: 0 });
    pair.step(1);
    assert_eq!(pair.selected(), Slot::Primary);
    assert_eq!(pair.current_buffer().get(3, 3), Texel::Seed { x: 0, y: 0 });
    assert_eq!(Slot::Primary.other(), Slot::Secondary);
    assert_eq!(Slot::Secondary.other(), Slot::Primary);
}

#[test]
fn flood_ends_on_the_buffer_that_parity_selects() {
    let mut even = PingPong::new(Dimensions::new(4, 4)).unwrap();
    even.flood();
    assert_eq!(even.selected(), Slot::Primary);
    let mut odd = PingPong::new(Dimensions::new(512, 1)).unwrap();
    odd.flood();
    assert_eq!(odd.selected(), Slot::Secondary);
    let mut single = PingPong::new(Dimensions::new(1, 1)).unwrap();
    single.flood();
    assert_eq!(single.selected(), Slot::Secondary);
}

#[test]
fn seeding_from_another_size_is_a_mismatch() {
    let coverage = coverage_with(4, 4, &[(0, 0)]);
    let mut pair = PingPong::new(Dimensions::new(4, 5)).unwrap();
    assert_eq!(pair.seed(&coverage), Err(OutlineError::ResourceMismatch));
    assert_eq!(pair.current_buffer().get(0, 0), Texel::Sentinel);
    assert!(PingPong::new(Dimensions::new(MAX_EXTENT + 1, 4)).is_none());
}
