use resurgence::config::GameConfig;
use resurgence::grid::Position;
use resurgence::origins::{OriginId, OriginRegistry};
use resurgence::patches::{GrowthPatchStore, PatchId};
use resurgence::spread::spread;

fn at(x: i64, z: i64) -> Position {
    Position { x, y: 0, z }
}

fn rules() -> GameConfig {
    GameConfig {
        cell_size: 2,
        tolerance: 1,
        half_extent: 100,
        height_offset: 0,
        initial_age: 0,
        maturation_rate: 1,
        max_age: 10,
        initial_radius: 0,
        expansion_rate: 4,
        max_radius: 4,
        starvation_radius: 4,
        tick_duration: 1,
    }
}

fn positions(store: &GrowthPatchStore) -> Vec<Position> {
    (0..store.len()).map(|i| store.get(PatchId(i)).unwrap().position).collect()
}

#[test]
fn expansion_reaches_the_cap_in_one_tick() {
    let config = rules();
    let mut origins = OriginRegistry::new();
    let id = origins.register(
        at(0, 0),
        config.initial_radius,
        config.expansion_rate,
        config.max_radius,
    );
    origins.advance_radii(config.tick_duration);
    let origin = origins.get(id).unwrap();
    assert_eq!(origin.radius, 4);
    assert!(origin.expansion_complete);
}

#[test]
fn ring_around_an_origin_is_filled() {
    let config = rules();
    let mut origins = OriginRegistry::new();
    let mut patches = GrowthPatchStore::new(config.tolerance, config.max_age);
    let id = origins.register(at(0, 0), 4, config.expansion_rate, config.max_radius);
    assert_eq!(
        patches.insert(at(0, 0), config.initial_age, config.maturation_rate, id),
        Some(PatchId(0))
    );
    spread(&mut origins, &mut patches, &config);
    let found = positions(&patches);
    let mut expected = vec![at(0, 0)];
    for x in -2..=2i64 {
        for z in -2..=2i64 {
            let d = 4 * (x * x + z * z);
            if 4 <= d && d <= 16 {
                expected.push(at(2 * x, 2 * z));
            }
        }
    }
    assert_eq!(expected.len(), 13);
    assert_eq!(found, expected);
    for x in -10..=10i64 {
        for z in -10..=10i64 {
            let d = x * x + z * z;
            let here = found.iter().filter(|p| **p == at(x, z)).count();
            if x % 2 == 0 && z % 2 == 0 && 4 <= d && d <= 16 {
                assert_eq!(here, 1);
            } else if d < 4 {
                assert_eq!(here, if d == 0 { 1 } else { 0 });
            } else {
                assert_eq!(here, 0);
            }
        }
    }
    origins.advance_radii(config.tick_duration);
    let origin = origins.get(id).unwrap();
    assert_eq!(origin.radius, 4);
    assert!(origin.expansion_complete);
}

#[test]
fn spread_seeds_patches_as_configured() {
    let config = GameConfig { initial_age: 3, maturation_rate: 7, ..rules() };
    let mut origins = OriginRegistry::new();
    let mut patches = GrowthPatchStore::new(config.tolerance, config.max_age);
    origins.register(at(50, 50), 0, 1, 100);
    let id = origins.register(Position { x: 10, y: 5, z: -10 }, 2, 1, 100);
    spread(&mut origins, &mut patches, &config);
    assert_eq!(patches.len(), 4);
    let expected = [(8, -10), (10, -12), (10, -8), (12, -10)];
    for (i, (x, z)) in expected.iter().enumerate() {
        let patch = patches.get(PatchId(i)).unwrap();
        assert_eq!(patch.position, Position { x: *x, y: 5, z: *z });
        assert_eq!(patch.age, 3);
        assert_eq!(patch.maturation_rate, 7);
        assert_eq!(patch.origin, id);
    }
}

#[test]
fn spread_skips_complete_origins() {
    let config = rules();
    let mut origins = OriginRegistry::new();
    let mut patches = GrowthPatchStore::new(config.tolerance, config.max_age);
    let id = origins.register(at(0, 0), 4, 1, 4);
    origins.mark_complete(id);
    spread(&mut origins, &mut patches, &config);
    assert_eq!(patches.len(), 0);
    assert_eq!(origins.get(id).unwrap().radius, 4);
}

#[test]
fn spread_does_not_reseed_the_origin_cell() {
    let config = rules();
    let mut origins = OriginRegistry::new();
    let mut patches = GrowthPatchStore::new(config.tolerance, config.max_age);
    origins.register(at(0, 0), 2, 1, 10);
    spread(&mut origins, &mut patches, &config);
    assert_eq!(positions(&patches), vec![at(-2, 0), at(0, -2), at(0, 2), at(2, 0)]);
}

#[test]
fn spread_reaches_nothing_under_one_cell() {
    let config = GameConfig { starvation_radius: 100, ..rules() };
    let mut origins = OriginRegistry::new();
    let mut patches = GrowthPatchStore::new(config.tolerance, config.max_age);
    let id = origins.register(at(0, 0), 1, 1, 10);
    spread(&mut origins, &mut patches, &config);
    assert_eq!(patches.len(), 0);
    assert!(!origins.get(id).unwrap().expansion_complete);
}

#[test]
fn spread_stays_inside_the_world() {
    let config = GameConfig { half_extent: 3, ..rules() };
    let mut origins = OriginRegistry::new();
    let mut patches = GrowthPatchStore::new(config.tolerance, config.max_age);
    origins.register(at(2, 2), 4, 1, 10);
    spread(&mut origins, &mut patches, &config);
    let found = positions(&patches);
    assert_eq!(
        found,
        vec![at(-2, 2), at(0, 0), at(0, 2), at(2, -2), at(2, 0)]
    );
    for p in found {
        assert!(p.x.abs() <= 3 && p.z.abs() <= 3);
    }
}

#[test]
fn spread_scans_against_the_patches_of_the_start() {
    let config = GameConfig { tolerance: 3, ..rules() };
    let mut origins = OriginRegistry::new();
    let mut patches = GrowthPatchStore::new(config.tolerance, config.max_age);
    origins.register(at(0, 0), 2, 1, 10);
    spread(&mut origins, &mut patches, &config);
    assert_eq!(positions(&patches), vec![at(-2, 0), at(2, 0)]);
}

#[test]
fn overlapping_frontiers_share_cells() {
    let config = GameConfig { expansion_rate: 2, max_radius: 40, ..rules() };
    let mut origins = OriginRegistry::new();
    let mut patches = GrowthPatchStore::new(config.tolerance, config.max_age);
    let a = origins.register(at(0, 0), 0, config.expansion_rate, config.max_radius);
    let b = origins.register(at(6, 0), 0, config.expansion_rate, config.max_radius);
    patches.insert(at(0, 0), 0, 1, a);
    patches.insert(at(6, 0), 0, 1, b);
    for tick in 1..=5i64 {
        origins.advance_radii(config.tick_duration);
        spread(&mut origins, &mut patches, &config);
        let radius = 2 * tick;
        assert_eq!(origins.get(a).unwrap().radius as i64, radius);
        assert!(!origins.get(a).unwrap().expansion_complete);
        assert!(!origins.get(b).unwrap().expansion_complete);
        let found = positions(&patches);
        for (i, p) in found.iter().enumerate() {
            for q in &found[i + 1..] {
                assert_ne!(p, q);
                assert!(!p.is_within(q, config.tolerance));
            }
        }
        let mut expected = 0;
        for x in -60..=60i64 {
            for z in -60..=60i64 {
                let near_a = 4 * (x * x + z * z) <= radius * radius;
                let near_b = 4 * ((x - 3) * (x - 3) + z * z) <= radius * radius;
                if near_a || near_b {
                    expected += 1;
                }
            }
        }
        assert_eq!(found.len(), expected);
    }
    assert_eq!(patches.get(PatchId(2)).unwrap().origin, a);
    let shared = (0..patches.len())
        .map(|i| patches.get(PatchId(i)).unwrap())
        .filter(|p| p.position == at(2, 4))
        .collect::<Vec<_>>();
    assert_eq!(shared.len(), 1);
    assert_eq!(shared[0].origin, a);
}

#[test]
fn starved_origin_does_not_stop_the_other() {
    let config = GameConfig { half_extent: 6, expansion_rate: 2, max_radius: 40, ..rules() };
    let mut origins = OriginRegistry::new();
    let mut patches = GrowthPatchStore::new(config.tolerance, config.max_age);
    let a = origins.register(at(0, 0), 0, 2, 40);
    let b = origins.register(at(6, 0), 0, 2, 40);
    patches.insert(at(0, 0), 0, 1, a);
    patches.insert(at(6, 0), 0, 1, b);
    let mut ticks_a = 0;
    let mut ticks_b = 0;
    for _ in 0..12 {
        origins.advance_radii(1);
        let before = patches.len();
        spread(&mut origins, &mut patches, &config);
        let own = |id: OriginId| {
            (before..patches.len())
                .filter(|i| patches.get(PatchId(*i)).unwrap().origin == id)
                .count()
        };
        if !origins.get(a).unwrap().expansion_complete {
            assert!(own(a) > 0);
            ticks_a += 1;
        }
        if !origins.get(b).unwrap().expansion_complete {
            assert!(own(b) > 0);
            ticks_b += 1;
        }
    }
    assert!(origins.all_complete());
    assert_eq!(patches.len(), 49);
    assert!(ticks_a > 0 && ticks_b > 0);
    assert!(origins.get(a).unwrap().radius < 40);
    assert!(origins.get(b).unwrap().radius < 40);
}

#[test]
fn starved_origin_is_finished_early() {
    let config = GameConfig { half_extent: 2, max_radius: 100, ..rules() };
    let mut origins = OriginRegistry::new();
    let mut patches = GrowthPatchStore::new(config.tolerance, config.max_age);
    let id = origins.register(at(0, 0), 0, 2, 100);
    patches.insert(at(0, 0), 0, 1, id);
    origins.advance_radii(1);
    spread(&mut origins, &mut patches, &config);
    assert_eq!(patches.len(), 5);
    assert!(!origins.get(id).unwrap().expansion_complete);
    origins.advance_radii(1);
    spread(&mut origins, &mut patches, &config);
    assert_eq!(patches.len(), 9);
    assert!(!origins.get(id).unwrap().expansion_complete);
    origins.advance_radii(1);
    spread(&mut origins, &mut patches, &config);
    assert_eq!(patches.len(), 9);
    let origin = origins.get(id).unwrap();
    assert!(origin.expansion_complete);
    assert_eq!(origin.radius, 6);
    origins.advance_radii(1);
    spread(&mut origins, &mut patches, &config);
    assert_eq!(origins.get(id).unwrap().radius, 6);
    assert_eq!(patches.len(), 9);
}

#[test]
fn starvation_waits_for_the_starvation_radius() {
    let config = GameConfig { half_extent: 0, starvation_radius: 5, ..rules() };
    let mut origins = OriginRegistry::new();
    let mut patches = GrowthPatchStore::new(config.tolerance, config.max_age);
    let id = origins.register(at(0, 0), 0, 2, 100);
    for radius in [2u32, 4] {
        origins.advance_radii(1);
        spread(&mut origins, &mut patches, &config);
        assert_eq!(origins.get(id).unwrap().radius, radius);
        assert!(!origins.get(id).unwrap().expansion_complete);
    }
    origins.advance_radii(1);
    spread(&mut origins, &mut patches, &config);
    assert_eq!(origins.get(id).unwrap().radius, 6);
    assert!(origins.get(id).unwrap().expansion_complete);
    assert_eq!(patches.len(), 0);
}

#[test]
fn starvation_at_exactly_the_starvation_radius() {
    let config = GameConfig { half_extent: 0, starvation_radius: 4, ..rules() };
    let mut origins = OriginRegistry::new();
    let mut patches = GrowthPatchStore::new(config.tolerance, config.max_age);
    let id = origins.register(at(0, 0), 3, 1, 100);
    spread(&mut origins, &mut patches, &config);
    assert!(!origins.get(id).unwrap().expansion_complete);
    origins.advance_radii(1);
    spread(&mut origins, &mut patches, &config);
    assert!(origins.get(id).unwrap().expansion_complete);
}

#[test]
fn earlier_origin_wins_a_cell_that_two_reach_at_once() {
    let config = rules();
    let mut origins = OriginRegistry::new();
    let mut patches = GrowthPatchStore::new(config.tolerance, config.max_age);
    let a = origins.register(at(0, 0), 2, 1, 10);
    let b = origins.register(at(4, 0), 2, 1, 10);
    spread(&mut origins, &mut patches, &config);
    assert_eq!(
        positions(&patches),
        vec![at(-2, 0), at(0, -2), at(0, 2), at(2, 0), at(4, -2), at(4, 2), at(6, 0)]
    );
    assert_eq!(patches.get(PatchId(3)).unwrap().origin, a);
    assert_eq!(patches.get(PatchId(4)).unwrap().origin, b);
}
