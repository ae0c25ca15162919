use card_sim::geometry::{
    advance_coordinate, clamp_to_i32, coordinate_gap, integer_sqrt, Position, UNIT,
};

fn at(x: i32, y: i32, z: i32) -> Position {
    Position { x, y, z }
}

#[test]
fn integer_square_roots() {
    assert_eq!(integer_sqrt(0), 0);
    assert_eq!(integer_sqrt(1), 1);
    assert_eq!(integer_sqrt(3), 1);
    assert_eq!(integer_sqrt(4), 2);
    assert_eq!(integer_sqrt(999_999), 999);
    assert_eq!(integer_sqrt(1_000_000), 1000);
    assert_eq!(integer_sqrt(u128::MAX), u64::MAX);
    assert_eq!(integer_sqrt((u64::MAX as u128) * (u64::MAX as u128) - 1), u64::MAX - 1);
}

#[test]
fn distances_are_exact_over_the_whole_range() {
    assert_eq!(at(0, 0, 0).distance_squared(&at(3, 4, 12)), 169);
    assert_eq!(at(-1, -1, -1).distance_squared(&at(1, 1, 1)), 12);
    let far = at(i32::MIN, i32::MIN, i32::MIN).distance_squared(&at(i32::MAX, i32::MAX, i32::MAX));
    assert_eq!(far, 3 * (u32::MAX as u128) * (u32::MAX as u128));
    assert_eq!(coordinate_gap(i32::MIN, i32::MAX), u32::MAX as u64);
    assert_eq!(coordinate_gap(5, -5), 10);
    assert_eq!(UNIT, 1000);
}

#[test]
fn a_step_leads_straight_towards_the_target() {
    let from = at(0, 0, 0);
    let target = at(3000, 4000, 0);
    assert_eq!(from.step_toward(&target, 1000), at(600, 800, 0));
    assert_eq!(from.step_toward(&target, 0), from);
    assert_eq!(from.step_toward(&target, 5000), target);
    assert_eq!(from.step_toward(&target, 6000), target);
    assert_eq!(target.step_toward(&from, 2500), at(1500, 2000, 0));
    assert_eq!(from.step_toward(&from, 10), from);
    assert_eq!(at(10, 10, 10).step_toward(&at(-10, 10, 40), 18), at(0, 10, 25));
    // each coordinate is rounded to the nearest step
    assert_eq!(from.step_toward(&at(1000, 1000, 1000), 100), at(58, 58, 58));
    assert_eq!(from.step_toward(&at(-1000, -1000, -1000), 100), at(-58, -58, -58));
    assert_eq!(from.step_toward(&at(601, 801, 0), 1), at(1, 1, 0));
    assert_eq!(from.step_toward(&at(1000, 10, 0), 1), at(1, 0, 0));
}

#[test]
fn a_step_never_leaves_the_range() {
    let low = at(i32::MIN, i32::MIN, i32::MIN);
    let high = at(i32::MAX, i32::MAX, i32::MAX);
    assert_eq!(low.step_toward(&high, u32::MAX), at(332_216_876, 332_216_876, 332_216_876));
    assert_eq!(advance_coordinate(i32::MIN, i32::MAX, 7, 7), i32::MAX);
    assert_eq!(advance_coordinate(i32::MAX, i32::MIN, 7, 7), i32::MIN);
    assert_eq!(advance_coordinate(0, 100, 1, 3), 33);
    assert_eq!(advance_coordinate(0, -100, 1, 3), -33);
    assert_eq!(advance_coordinate(0, 100, 2, 3), 67);
    assert_eq!(advance_coordinate(0, 1, 1, 2), 1);
    assert_eq!(advance_coordinate(0, -1, 1, 2), -1);
}

#[test]
fn shifts_stop_at_the_end_of_the_range() {
    assert_eq!(at(5, 6, 7).shifted_x(1000), at(1005, 6, 7));
    assert_eq!(at(i32::MAX - 3, 6, 7).shifted_x(1000), at(i32::MAX, 6, 7));
    assert_eq!(at(i32::MIN + 3, 6, 7).shifted_x(-1000), at(i32::MIN, 6, 7));
    assert_eq!(clamp_to_i32(i64::MAX), i32::MAX);
    assert_eq!(clamp_to_i32(i64::MIN), i32::MIN);
    assert_eq!(clamp_to_i32(-12), -12);
    assert_eq!(Position::origin(), at(0, 0, 0));
}
