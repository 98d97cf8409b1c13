use resurgence::grid::Position;
use resurgence::origins::OriginId;
use resurgence::patches::{GrowthPatch, GrowthPatchStore, PatchId};

fn at(x: i64, z: i64) -> Position {
    Position { x, y: 0, z }
}

#[test]
fn fresh_patch_caps_its_initial_age() {
    let patch = GrowthPatch::new(at(2, 4), 3, 5, OriginId(1), 10);
    assert_eq!(
        patch,
        GrowthPatch { position: at(2, 4), age: 3, maturation_rate: 5, origin: OriginId(1) }
    );
    assert_eq!(GrowthPatch::new(at(2, 4), 30, 5, OriginId(1), 10).age, 10);
}

#[test]
fn maturation_adds_rate_times_time() {
    let patch = GrowthPatch::new(at(0, 0), 1, 3, OriginId(0), 100);
    let next = patch.mature(4, 100);
    assert_eq!(next.age, 13);
    assert_eq!(next.position, patch.position);
    assert_eq!(next.maturation_rate, 3);
    assert_eq!(next.origin, OriginId(0));
}

#[test]
fn maturation_stops_at_the_cap() {
    let patch = GrowthPatch::new(at(0, 0), 1, 3, OriginId(0), 10);
    assert_eq!(patch.mature(3, 10).age, 10);
    assert_eq!(patch.mature(4, 10).age, 10);
    assert_eq!(patch.mature(u32::MAX, 10).age, 10);
    let fast = GrowthPatch::new(at(0, 0), u32::MAX - 1, u32::MAX, OriginId(0), u32::MAX);
    assert_eq!(fast.mature(u32::MAX, u32::MAX).age, u32::MAX);
}

#[test]
fn mature_patch_stays_as_it_is() {
    let patch = GrowthPatch { position: at(0, 0), age: 10, maturation_rate: 3, origin: OriginId(0) };
    assert_eq!(patch.mature(5, 10), patch);
    let past = GrowthPatch { position: at(0, 0), age: 12, maturation_rate: 3, origin: OriginId(0) };
    assert_eq!(past.mature(5, 10), past);
}

#[test]
fn store_keeps_what_it_was_made_with() {
    let store = GrowthPatchStore::new(7, 99);
    assert_eq!(store.tolerance(), 7);
    assert_eq!(store.max_age(), 99);
    assert_eq!(store.len(), 0);
    assert_eq!(store.get(PatchId(0)), None);
}

#[test]
fn insert_adds_a_patch_where_there_is_room() {
    let mut store = GrowthPatchStore::new(1, 10);
    assert_eq!(store.insert(at(0, 0), 2, 3, OriginId(5)), Some(PatchId(0)));
    assert_eq!(store.insert(at(2, 0), 20, 4, OriginId(6)), Some(PatchId(1)));
    assert_eq!(store.len(), 2);
    assert_eq!(
        store.get(PatchId(0)),
        Some(GrowthPatch { position: at(0, 0), age: 2, maturation_rate: 3, origin: OriginId(5) })
    );
    assert_eq!(
        store.get(PatchId(1)),
        Some(GrowthPatch { position: at(2, 0), age: 10, maturation_rate: 4, origin: OriginId(6) })
    );
}

#[test]
fn insert_is_turned_down_where_a_patch_is_close() {
    let mut store = GrowthPatchStore::new(3, 10);
    assert_eq!(store.insert(at(0, 0), 0, 1, OriginId(0)), Some(PatchId(0)));
    assert_eq!(store.insert(at(0, 0), 0, 1, OriginId(0)), None);
    assert_eq!(store.insert(at(2, 0), 0, 1, OriginId(0)), None);
    assert_eq!(store.insert(at(2, 2), 0, 1, OriginId(0)), None);
    assert_eq!(store.len(), 1);
    assert_eq!(store.insert(at(3, 0), 0, 1, OriginId(0)), Some(PatchId(1)));
    assert_eq!(store.len(), 2);
}

#[test]
fn occupancy_is_for_good() {
    let mut store = GrowthPatchStore::new(2, 10);
    store.insert(at(4, 4), 0, 1, OriginId(0));
    for round in 0..5u32 {
        store.advance_ages(round);
        store.insert(at(100 + 10 * round as i64, 0), 0, 1, OriginId(0));
        assert!(store.is_occupied(at(4, 4), 2));
        assert!(store.is_occupied(at(5, 4), 2));
        let before = store.len();
        assert_eq!(store.insert(at(4, 4), 0, 1, OriginId(1)), None);
        assert_eq!(store.insert(at(4, 5), 0, 1, OriginId(1)), None);
        assert_eq!(store.len(), before);
    }
}

#[test]
fn occupancy_goes_by_the_tolerance_asked_for() {
    let mut store = GrowthPatchStore::new(1, 10);
    store.insert(at(0, 0), 0, 1, OriginId(0));
    assert!(store.is_occupied(at(0, 0), 1));
    assert!(!store.is_occupied(at(2, 0), 1));
    assert!(!store.is_occupied(at(2, 0), 2));
    assert!(store.is_occupied(at(2, 0), 3));
    assert!(!store.is_occupied(at(0, 0), 0));
    assert!(!GrowthPatchStore::new(1, 10).is_occupied(at(0, 0), u32::MAX));
}

#[test]
fn zero_tolerance_turns_nothing_down() {
    let mut store = GrowthPatchStore::new(0, 10);
    assert_eq!(store.insert(at(0, 0), 0, 1, OriginId(0)), Some(PatchId(0)));
    assert_eq!(store.insert(at(0, 0), 0, 1, OriginId(0)), Some(PatchId(1)));
}

#[test]
fn ages_advance_up_to_the_cap() {
    let mut store = GrowthPatchStore::new(1, 10);
    store.insert(at(0, 0), 0, 3, OriginId(0));
    store.insert(at(2, 0), 4, 1, OriginId(0));
    store.insert(at(4, 0), 10, 5, OriginId(0));
    store.advance_ages(2);
    assert_eq!(store.get(PatchId(0)).unwrap().age, 6);
    assert_eq!(store.get(PatchId(1)).unwrap().age, 6);
    assert_eq!(store.get(PatchId(2)).unwrap().age, 10);
    assert!(!store.all_mature(10));
    store.advance_ages(2);
    assert_eq!(store.get(PatchId(0)).unwrap().age, 10);
    assert_eq!(store.get(PatchId(1)).unwrap().age, 8);
    assert!(!store.all_mature(10));
    assert!(store.all_mature(8));
    store.advance_ages(u32::MAX);
    assert_eq!(store.get(PatchId(1)).unwrap().age, 10);
    assert!(store.all_mature(10));
}

#[test]
fn ages_are_bounded_and_never_decrease() {
    let mut store = GrowthPatchStore::new(1, 1000);
    for i in 0..6i64 {
        store.insert(at(2 * i, 0), (i * 300) as u32, (i * 7) as u32, OriginId(0));
    }
    let steps: [u32; 6] = [0, 1, 13, 0, u32::MAX, 2];
    for dt in steps {
        let before: Vec<GrowthPatch> =
            (0..store.len()).map(|i| store.get(PatchId(i)).unwrap()).collect();
        store.advance_ages(dt);
        for (i, old) in before.iter().enumerate() {
            let new = store.get(PatchId(i)).unwrap();
            assert!(new.age >= old.age);
            assert!(new.age <= 1000);
            assert_eq!(new.position, old.position);
        }
    }
}

#[test]
fn empty_store_is_mature() {
    assert!(GrowthPatchStore::new(1, 10).all_mature(10));
    assert!(GrowthPatchStore::new(1, 10).all_mature(u32::MAX));
}
