use nbody_sim::precision::{adjust_precision, lower_precision, raise_precision, MAX_DOUBLABLE};
use nbody_sim::number::Scalar;
use nbody_sim::speed::{
    adjust_speed, frame_step, lower_speed, raise_speed, SPEED_FLOOR_BITS, SPEED_RATIO_BITS,
};
use nbody_sim::tracking::{closest_marker, select_target, tracked_index, Marker, NO_TARGET};
use nbody_sim::vector::Vec2;
use nbody_sim::view::{view_to_world, world_to_view, VIEW_SCALE_BITS};

#[test]
fn raising_doubles_the_count() {
    assert_eq!(raise_precision(10), 20);
    assert_eq!(raise_precision(1), 2);
    assert_eq!(raise_precision(0), 0);
    assert_eq!(raise_precision(MAX_DOUBLABLE), 0xFFFF_FFFE);
}

#[test]
fn lowering_halves_but_stops_at_one() {
    assert_eq!(lower_precision(10), 5);
    assert_eq!(lower_precision(5), 2);
    assert_eq!(lower_precision(2), 1);
    assert_eq!(lower_precision(1), 1);
    assert_eq!(lower_precision(0), 0);
    assert_eq!(lower_precision(u32::MAX), 0x7FFF_FFFF);
}

#[test]
fn raise_is_applied_before_lower() {
    assert_eq!(adjust_precision(10, false, false), 10);
    assert_eq!(adjust_precision(10, true, false), 20);
    assert_eq!(adjust_precision(10, false, true), 5);
    assert_eq!(adjust_precision(10, true, true), 10);
    assert_eq!(adjust_precision(1, true, true), 1);
    assert_eq!(adjust_precision(7, true, true), 7);
}

#[test]
fn a_positive_count_stays_positive() {
    let mut count: u32 = 1;
    for _ in 0..5 {
        count = adjust_precision(count, false, true);
        assert_eq!(count, 1);
    }
    for round in 0..20u32 {
        count = adjust_precision(count, true, false);
        assert_eq!(count, 1u32 << (round + 1));
    }
    for _ in 0..40 {
        count = adjust_precision(count, false, true);
        assert!(count >= 1);
    }
    assert_eq!(count, 1);
}

#[test]
fn no_target_follows_nothing() {
    assert_eq!(tracked_index(NO_TARGET, &vec![1, 2, 3]), None);
    assert_eq!(tracked_index(NO_TARGET, &vec![0, 0]), None);
    assert_eq!(tracked_index(NO_TARGET, &vec![]), None);
}

#[test]
fn tracker_finds_its_body() {
    let ids = vec![1, 2, 3, 4, 5, 6, 7, 8];
    assert_eq!(tracked_index(1, &ids), Some(0));
    assert_eq!(tracked_index(5, &ids), Some(4));
    assert_eq!(tracked_index(8, &ids), Some(7));
    assert_eq!(tracked_index(9, &ids), None);
    assert_eq!(tracked_index(-1, &ids), None);
    assert_eq!(tracked_index(3, &vec![]), None);
}

#[test]
fn last_body_with_the_identifier_wins() {
    assert_eq!(tracked_index(2, &vec![2, 1, 2, 3]), Some(2));
    assert_eq!(tracked_index(7, &vec![7, 7, 7]), Some(2));
}

fn scalar(x: f64) -> Scalar {
    Scalar::from_bits(x.to_bits())
}

fn number(s: Scalar) -> f64 {
    f64::from_bits(s.to_bits())
}

fn marker(id: i32, x: f64, y: f64) -> Marker {
    Marker { id, position: Vec2::new(scalar(x), scalar(y)) }
}

#[test]
fn speed_constants_have_their_values() {
    assert_eq!(SPEED_RATIO_BITS, 1.1f64.to_bits());
    assert_eq!(SPEED_FLOOR_BITS, 1.0e-6f64.to_bits());
}

#[test]
fn raising_the_speed_multiplies_it() {
    assert_eq!(number(raise_speed(scalar(1.0e6))), 1.0e6 * 1.1);
    assert_eq!(number(raise_speed(scalar(0.0))), 0.0);
    assert_eq!(number(raise_speed(scalar(-2.0))), -2.0 * 1.1);
    assert!(!raise_speed(scalar(f64::MAX)).finite());
}

#[test]
fn lowering_the_speed_divides_it_above_the_floor() {
    assert_eq!(number(lower_speed(scalar(1.0e6))), 1.0e6 / 1.1);
    assert_eq!(number(lower_speed(scalar(1.1e-6))), 1.1e-6 / 1.1);
    assert_eq!(number(lower_speed(scalar(1.0e-6))), 1.0e-6);
    assert_eq!(number(lower_speed(scalar(5.0e-7))), 5.0e-7);
    assert_eq!(number(lower_speed(scalar(0.0))), 0.0);
    assert_eq!(number(lower_speed(scalar(-3.0))), -3.0);
    assert!(!lower_speed(scalar(f64::NAN)).finite());
}

#[test]
fn speed_requests_apply_in_order() {
    let s = scalar(1.0e6);
    assert_eq!(adjust_speed(s, false, false), s);
    assert_eq!(number(adjust_speed(s, true, false)), 1.0e6 * 1.1);
    assert_eq!(number(adjust_speed(s, false, true)), 1.0e6 / 1.1);
    assert_eq!(number(adjust_speed(s, true, true)), (1.0e6 * 1.1) / 1.1);
    // raised from just below the floor, the speed is above it and is divided again
    let low = scalar(9.5e-7);
    assert_eq!(number(adjust_speed(low, true, true)), (9.5e-7 * 1.1) / 1.1);
}

#[test]
fn frame_step_is_elapsed_time_times_speed() {
    assert_eq!(number(frame_step(scalar(0.016), scalar(1.0e6))), 0.016 * 1.0e6);
    assert_eq!(number(frame_step(scalar(0.0), scalar(1.0e6))), 0.0);
}

#[test]
fn closest_marker_is_found() {
    let markers = vec![
        marker(1, 0.0, 0.0),
        marker(2, 10.0, 0.0),
        marker(3, 4.0, 3.0),
        marker(4, -3.0, 4.0),
    ];
    let cursor = Vec2::new(scalar(0.0), scalar(0.0));
    assert_eq!(closest_marker(cursor, &markers), Some(0));
    assert_eq!(select_target(cursor, &markers), 1);
    let cursor = Vec2::new(scalar(9.0), scalar(1.0));
    assert_eq!(closest_marker(cursor, &markers), Some(1));
    assert_eq!(select_target(cursor, &markers), 2);
    let cursor = Vec2::new(scalar(3.0), scalar(3.0));
    assert_eq!(select_target(cursor, &markers), 3);
}

#[test]
fn first_of_equally_close_markers_wins() {
    let markers = vec![marker(7, 4.0, 3.0), marker(8, -3.0, 4.0), marker(9, 5.0, 0.0)];
    let cursor = Vec2::new(scalar(0.0), scalar(0.0));
    assert_eq!(closest_marker(cursor, &markers), Some(0));
    assert_eq!(select_target(cursor, &markers), 7);
}

#[test]
fn markers_out_of_reach_are_passed_over() {
    let cursor = Vec2::new(scalar(0.0), scalar(0.0));
    assert_eq!(closest_marker(cursor, &Vec::new()), None);
    assert_eq!(select_target(cursor, &Vec::new()), NO_TARGET);
    let lost = vec![marker(1, f64::NAN, 0.0), marker(2, 1.0e200, 1.0e200)];
    assert_eq!(closest_marker(cursor, &lost), None);
    assert_eq!(select_target(cursor, &lost), NO_TARGET);
    let mixed = vec![marker(1, f64::NAN, 0.0), marker(2, 1.0e100, 0.0), marker(3, 50.0, 0.0)];
    assert_eq!(closest_marker(cursor, &mixed), Some(2));
    assert_eq!(select_target(cursor, &mixed), 3);
    let bad_cursor = Vec2::new(scalar(f64::INFINITY), scalar(0.0));
    assert_eq!(select_target(bad_cursor, &mixed), NO_TARGET);
}

#[test]
fn view_and_world_differ_by_the_scale() {
    assert_eq!(VIEW_SCALE_BITS, 1.0e9f64.to_bits());
    let shown = world_to_view(Vec2::new(scalar(1.496e11), scalar(-3.0e9)));
    assert_eq!(number(shown.x), 1.496e11 / 1.0e9);
    assert_eq!(number(shown.y), -3.0);
    let meant = view_to_world(Vec2::new(scalar(149.6), scalar(-0.25)));
    assert_eq!(number(meant.x), 149.6 * 1.0e9);
    assert_eq!(number(meant.y), -0.25e9);
}

#[test]
fn a_direction_has_length_one_or_none() {
    let v = Vec2::new(scalar(3.0), scalar(-4.0));
    let unit = v.normalized();
    assert_eq!(number(unit.x), 3.0 * (1.0 / 5.0));
    assert_eq!(number(unit.y), -4.0 * (1.0 / 5.0));
    let nothing = Vec2::new(scalar(0.0), scalar(-0.0)).normalized();
    assert_eq!(nothing.x.to_bits(), 0);
    assert_eq!(nothing.y.to_bits(), 0);
    let lost = Vec2::new(scalar(f64::NAN), scalar(1.0)).normalized();
    assert!(!lost.defined());
    let far = Vec2::new(scalar(1.0e200), scalar(1.0)).normalized();
    assert!(!far.defined());
}
