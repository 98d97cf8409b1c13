use resurgence::grid::{snap_axis, snap_to_grid, Position};

fn at(x: i64, y: i64, z: i64) -> Position {
    Position { x, y, z }
}

#[test]
fn snap_rounds_to_nearest_multiple() {
    assert_eq!(snap_axis(0, 2), 0);
    assert_eq!(snap_axis(4, 10), 0);
    assert_eq!(snap_axis(6, 10), 10);
    assert_eq!(snap_axis(2999, 2000), 2000);
    assert_eq!(snap_axis(3001, 2000), 4000);
    assert_eq!(snap_axis(-4, 10), 0);
    assert_eq!(snap_axis(-6, 10), -10);
    assert_eq!(snap_axis(7, 1), 7);
}

#[test]
fn snap_rounds_halves_away_from_zero() {
    assert_eq!(snap_axis(1, 2), 2);
    assert_eq!(snap_axis(3, 2), 4);
    assert_eq!(snap_axis(5, 10), 10);
    assert_eq!(snap_axis(-1, 2), -2);
    assert_eq!(snap_axis(-3, 2), -4);
    assert_eq!(snap_axis(-5, 10), -10);
}

#[test]
fn snap_leaves_the_vertical_coordinate_alone() {
    let snapped = snap_to_grid(at(5, 7, -1), 2);
    assert_eq!(snapped, at(6, 7, -2));
    let snapped = snap_to_grid(at(2999, -123, -3001), 2000);
    assert_eq!(snapped, at(2000, -123, -4000));
}

#[test]
fn snap_is_idempotent() {
    let cells: [u32; 5] = [1, 2, 3, 10, 2000];
    let values: [i64; 9] = [-3001, -1000, -7, -1, 0, 1, 5, 999, 123_456];
    for cell in cells {
        for x in values {
            for z in values {
                let once = snap_to_grid(at(x, 11, z), cell);
                let twice = snap_to_grid(once, cell);
                assert_eq!(once, twice);
                assert_eq!(once.x % cell as i64, 0);
                assert_eq!(once.z % cell as i64, 0);
                assert!((once.x - x).abs() * 2 <= cell as i64);
                assert!((once.z - z).abs() * 2 <= cell as i64);
            }
        }
    }
}

#[test]
fn snap_stays_in_range_at_the_edges() {
    assert_eq!(snap_axis(i64::MAX, 1000), 9_223_372_036_854_775_000);
    assert_eq!(snap_axis(i64::MIN, 1000), -9_223_372_036_854_775_000);
    assert_eq!(snap_axis(i64::MAX, 1), i64::MAX);
    assert_eq!(snap_axis(i64::MIN, 1), i64::MIN);
    let edge = snap_axis(i64::MAX, u32::MAX);
    assert_eq!(edge % u32::MAX as i64, 0);
    assert_eq!(snap_axis(edge, u32::MAX), edge);
}

#[test]
fn closeness_is_strict() {
    let origin = at(0, 0, 0);
    assert!(origin.is_within(&at(0, 0, 0), 1));
    assert!(!origin.is_within(&at(1, 0, 0), 1));
    assert!(origin.is_within(&at(3, 4, 0), 6));
    assert!(!origin.is_within(&at(3, 4, 0), 5));
    assert!(origin.is_within(&at(1, 2, 2), 4));
    assert!(!origin.is_within(&at(1, 2, 2), 3));
    assert!(!origin.is_within(&at(0, 0, 0), 0));
}

#[test]
fn closeness_counts_the_vertical_axis() {
    let low = at(10, 0, 10);
    assert!(!low.is_within(&at(10, 5, 10), 5));
    assert!(low.is_within(&at(10, 4, 10), 5));
}

#[test]
fn closeness_copes_with_the_whole_range() {
    let far = at(i64::MIN, i64::MIN, i64::MIN);
    let other = at(i64::MAX, i64::MAX, i64::MAX);
    assert!(!far.is_within(&other, u32::MAX));
    assert!(far.is_within(&far, 1));
    assert!(at(i64::MAX, 0, 0).is_within(&at(i64::MAX - 3, 0, 0), 4));
    assert!(!at(i64::MAX, 0, 0).is_within(&at(i64::MAX - 4, 0, 0), 4));
}
