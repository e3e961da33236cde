use hemisphere_seeker::{
    calculate_distance_squared, motor_to_rad, nearest_index, ring_elevations, snake_rings,
    sort_ring_major, Angle, MotorSteps, ScanError, ScannerEnumerator,
};

fn pos(h: i32, v: i32) -> MotorSteps {
    MotorSteps { h, v }
}

fn degrees(hundredths: i64) -> Angle {
    Angle { num: hundredths, den: 18000 }
}

fn radii_for(range_v: i32, fov_v: Angle) -> Vec<i32> {
    let mut radii = Vec::new();
    for elevation in ring_elevations(range_v, fov_v) {
        let angle = motor_to_rad(elevation, range_v).unwrap();
        let theta = std::f64::consts::PI * angle.num as f64 / angle.den as f64;
        radii.push((theta.cos() * 1_000_000.0).round() as i32);
    }
    radii
}

fn camera_scanner() -> ScannerEnumerator {
    let fov_v = degrees(2572);
    let radii = radii_for(800, fov_v);
    ScannerEnumerator::new(pos(800, 800), degrees(3416), fov_v, pos(0, 0), &radii).unwrap()
}

fn holding(positions: Vec<MotorSteps>, range_h: i32) -> ScannerEnumerator {
    ScannerEnumerator {
        motor_range: pos(range_h, 800),
        fov_h: degrees(3416),
        fov_v: degrees(2572),
        positions,
        current_index: 0,
    }
}

#[test]
fn distance_wraps_horizontally_only() {
    assert_eq!(calculate_distance_squared(800, pos(0, 0), pos(399, 0)), 399 * 399);
    assert_eq!(calculate_distance_squared(800, pos(0, 0), pos(-400, 0)), 400 * 400);
    assert_eq!(calculate_distance_squared(800, pos(-390, 0), pos(390, 0)), 20 * 20);
    assert_eq!(calculate_distance_squared(800, pos(0, 10), pos(0, 390)), 380 * 380);
    assert_eq!(calculate_distance_squared(800, pos(3, 0), pos(0, 4)), 25);
    assert_eq!(calculate_distance_squared(800, pos(-399, 7), pos(398, 3)), 9 + 16);
}

#[test]
fn distance_on_a_scanner_uses_its_horizontal_range() {
    let wide = holding(Vec::new(), 800);
    assert_eq!(wide.calculate_distance_squared(pos(-390, 0), pos(390, 1)), 401);
    let narrow = holding(Vec::new(), 790);
    assert_eq!(narrow.calculate_distance_squared(pos(-390, 0), pos(390, 1)), 101);
}

#[test]
fn distance_takes_the_largest_gaps() {
    let d = calculate_distance_squared(i32::MAX, pos(i32::MIN, i32::MIN), pos(i32::MAX, i32::MAX));
    let gap: i128 = (1i128 << 32) - 1;
    let round: i128 = i32::MAX as i128 - gap;
    assert_eq!(d, round * round + gap * gap);
}

#[test]
fn nearest_of_two_across_the_wrap_is_the_first() {
    let candidates = vec![pos(399, 0), pos(-400, 0)];
    assert_eq!(nearest_index(&candidates, pos(0, 0), 800), 0);
    let se = holding(candidates, 800);
    assert_eq!(se.find_closest_position_index(pos(0, 0)), 0);
}

#[test]
fn nearest_of_equally_near_is_the_first() {
    let candidates = vec![pos(50, 0), pos(400, 0), pos(-400, 0), pos(400, 0)];
    assert_eq!(nearest_index(&candidates, pos(0, 400), 800), 0);
    let tied = vec![pos(400, 0), pos(-400, 0)];
    assert_eq!(nearest_index(&tied, pos(0, 0), 800), 0);
    let later = vec![pos(10, 0), pos(-5, 0), pos(5, 0), pos(0, 5)];
    assert_eq!(nearest_index(&later, pos(0, 0), 800), 1);
}

#[test]
fn nearest_goes_round_the_wrap() {
    let candidates = vec![pos(0, 0), pos(-390, 0), pos(200, 0)];
    assert_eq!(nearest_index(&candidates, pos(395, 0), 800), 1);
}

#[test]
fn nearest_of_none_is_zero() {
    let none: Vec<MotorSteps> = Vec::new();
    assert_eq!(nearest_index(&none, pos(0, 0), 800), 0);
    assert_eq!(holding(Vec::new(), 800).find_closest_position_index(pos(3, 4)), 0);
}

#[test]
fn sort_orders_by_ring_then_by_horizontal_step() {
    let raw = vec![pos(2, 1), pos(0, 0), pos(-4, 1), pos(2, 0), pos(0, 1), pos(-4, 0)];
    assert_eq!(
        sort_ring_major(&raw),
        vec![pos(-4, 0), pos(0, 0), pos(2, 0), pos(-4, 1), pos(0, 1), pos(2, 1)]
    );
}

#[test]
fn snake_turns_every_second_ring() {
    let sorted = vec![pos(-4, 0), pos(0, 0), pos(2, 0), pos(-4, 1), pos(0, 1), pos(2, 1), pos(1, 5)];
    assert_eq!(
        snake_rings(&sorted),
        vec![pos(-4, 0), pos(0, 0), pos(2, 0), pos(2, 1), pos(0, 1), pos(-4, 1), pos(1, 5)]
    );
}

#[test]
fn optimize_lays_the_rings_out_as_a_snake() {
    let se = holding(Vec::new(), 8);
    let raw = vec![
        pos(0, 0),
        pos(2, 0),
        pos(-4, 0),
        pos(-2, 0),
        pos(0, 3),
        pos(3, 3),
        pos(-3, 3),
        pos(1, 7),
        pos(-1, 7),
        pos(0, 9),
        pos(5, 9),
    ];
    let expected = vec![
        pos(-4, 0),
        pos(-2, 0),
        pos(0, 0),
        pos(2, 0),
        pos(3, 3),
        pos(0, 3),
        pos(-3, 3),
        pos(-1, 7),
        pos(1, 7),
        pos(5, 9),
        pos(0, 9),
    ];
    assert_eq!(se.optimize_circle_positions(raw), expected);
}

#[test]
fn optimize_keeps_repeated_positions() {
    let se = holding(Vec::new(), 8);
    let raw = vec![pos(1, 2), pos(1, 2), pos(0, 2), pos(1, 1)];
    assert_eq!(
        se.optimize_circle_positions(raw),
        vec![pos(1, 1), pos(1, 2), pos(1, 2), pos(0, 2)]
    );
}

#[test]
fn optimize_twice_changes_nothing_more() {
    let se = camera_scanner();
    let once = se.optimize_circle_positions(se.positions.clone());
    assert_eq!(once, se.positions);
    let mut shuffled = se.positions.clone();
    shuffled.reverse();
    assert_eq!(se.optimize_circle_positions(shuffled), se.positions);
}

#[test]
fn optimize_of_nothing_is_nothing() {
    let se = holding(Vec::new(), 8);
    assert_eq!(se.optimize_circle_positions(Vec::new()), Vec::new());
}

#[test]
fn generate_is_the_ring_sampler_of_the_scanner() {
    let quarter = Angle { num: 1, den: 2 };
    let se = ScannerEnumerator {
        motor_range: pos(8, 4),
        fov_h: quarter,
        fov_v: quarter,
        positions: Vec::new(),
        current_index: 0,
    };
    let radii = vec![1_000_000, 0, -1_000_000];
    assert_eq!(
        se.generate_circle_positions(pos(0, 0), &radii),
        Ok(vec![pos(0, 0), pos(2, 0), pos(-4, 0), pos(-2, 0), pos(0, 1), pos(0, 2)])
    );
    assert_eq!(
        se.generate_circle_positions(pos(0, 3), &radii),
        Err(ScanError::InvalidInitialPosition)
    );
}

#[test]
fn new_builds_the_snake_and_starts_nearest() {
    let quarter = Angle { num: 1, den: 2 };
    let radii = vec![1_000_000, 0, -1_000_000];
    let se = ScannerEnumerator::new(pos(8, 4), quarter, quarter, pos(0, 0), &radii).unwrap();
    assert_eq!(
        se.positions,
        vec![pos(-4, 0), pos(-2, 0), pos(0, 0), pos(2, 0), pos(0, 1), pos(0, 2)]
    );
    assert_eq!(se.current_index, 2);
    assert_eq!(se.current(), Some(pos(0, 0)));
    assert_eq!(se.motor_range, pos(8, 4));
    let top = ScannerEnumerator::new(pos(8, 4), quarter, quarter, pos(1, 2), &radii).unwrap();
    assert_eq!(top.current(), Some(pos(0, 2)));
    let round = ScannerEnumerator::new(pos(8, 4), quarter, quarter, pos(3, 2), &radii).unwrap();
    assert_eq!(round.current(), Some(pos(-4, 0)));
}

#[test]
fn new_refuses_what_the_sampler_refuses() {
    let quarter = Angle { num: 1, den: 2 };
    let radii = vec![1_000_000, 0, -1_000_000];
    let outside = ScannerEnumerator::new(pos(8, 4), quarter, quarter, pos(0, -1), &radii);
    assert_eq!(outside.err(), Some(ScanError::InvalidInitialPosition));
    let above = ScannerEnumerator::new(pos(8, 4), quarter, quarter, pos(0, 3), &radii);
    assert_eq!(above.err(), Some(ScanError::InvalidInitialPosition));
    let flat = ScannerEnumerator::new(pos(0, 4), quarter, quarter, pos(0, 0), &radii);
    assert_eq!(flat.err(), Some(ScanError::Range));
    let none: Vec<i32> = Vec::new();
    let still = ScannerEnumerator::new(pos(8, 0), quarter, quarter, pos(0, 0), &none);
    assert_eq!(still.err(), Some(ScanError::Range));
}

#[test]
fn the_camera_sweep_starts_on_the_lowest_ring() {
    let se = camera_scanner();
    let lowest = se.positions.iter().filter(|p| p.v == 0).count();
    assert!(lowest >= 11);
    assert_eq!(lowest, 11);
    assert_eq!(se.current().map(|p| p.v), Some(0));
    assert_eq!(se.current(), Some(pos(0, 0)));
    assert_eq!(se.positions[se.current_index], pos(0, 0));
}

#[test]
fn the_camera_sweep_covers_every_ring() {
    let se = camera_scanner();
    let mut rings: Vec<i32> = se.positions.iter().map(|p| p.v).collect();
    rings.dedup();
    assert_eq!(rings, vec![0, 57, 114, 171, 228, 285, 342, 399]);
    let counts: Vec<usize> =
        rings.iter().map(|v| se.positions.iter().filter(|p| p.v == *v).count()).collect();
    assert_eq!(counts, vec![11, 10, 7, 3, 1, 1, 1, 1]);
}

#[test]
fn the_camera_sweep_stays_in_the_upper_hemisphere() {
    let se = camera_scanner();
    for p in se.positions.iter() {
        assert!(-400 <= p.h && p.h < 400);
        assert!(0 <= p.v && p.v <= 400);
    }
}

#[test]
fn the_camera_sweep_alternates_direction() {
    let se = camera_scanner();
    let first: Vec<i32> = se.positions.iter().filter(|p| p.v == 0).map(|p| p.h).collect();
    assert_eq!(first, vec![-364, -291, -218, -145, -73, 0, 73, 145, 218, 291, 364]);
    let second: Vec<i32> = se.positions.iter().filter(|p| p.v == 57).map(|p| p.h).collect();
    assert_eq!(second, vec![320, 240, 160, 80, 0, -80, -160, -240, -320, -400]);
    let third: Vec<i32> = se.positions.iter().filter(|p| p.v == 114).map(|p| p.h).collect();
    assert_eq!(third, vec![-343, -229, -114, 0, 114, 229, 343]);
    for pair in se.positions.windows(2) {
        if pair[0].v == pair[1].v {
            let ring = pair[0].v / 57;
            if ring % 2 == 0 {
                assert!(pair[0].h <= pair[1].h);
            } else {
                assert!(pair[0].h >= pair[1].h);
            }
        } else {
            assert!(pair[0].v < pair[1].v);
        }
    }
}

#[test]
fn the_cursor_is_back_after_as_many_steps_as_positions() {
    let mut se = camera_scanner();
    let n = se.positions.len();
    let start = se.current_index;
    for _ in 1..n {
        assert!(se.move_next());
        assert_ne!(se.current_index, start);
    }
    assert!(se.move_next());
    assert_eq!(se.current_index, start);
}

#[test]
fn the_cursor_wraps_from_the_last_to_the_first() {
    let mut se = holding(vec![pos(1, 0), pos(2, 0), pos(3, 0)], 800);
    assert_eq!(se.current(), Some(pos(1, 0)));
    assert!(se.move_next());
    assert_eq!(se.current(), Some(pos(2, 0)));
    assert!(se.move_next());
    assert_eq!(se.current(), Some(pos(3, 0)));
    assert!(se.move_next());
    assert_eq!(se.current_index, 0);
    assert_eq!(se.current(), Some(pos(1, 0)));
}

#[test]
fn the_cursor_over_nothing_never_moves() {
    let mut se = holding(Vec::new(), 800);
    for _ in 0..5 {
        assert!(!se.move_next());
        assert_eq!(se.current_index, 0);
        assert_eq!(se.current(), None);
    }
}

#[test]
fn a_cursor_past_the_end_has_no_position() {
    let mut se = holding(vec![pos(1, 0), pos(2, 0), pos(3, 0)], 800);
    se.current_index = 7;
    assert_eq!(se.current(), None);
    assert!(se.move_next());
    assert_eq!(se.current_index, 2);
}
