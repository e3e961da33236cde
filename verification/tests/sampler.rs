use hemisphere_seeker::{
    azimuth_count, ring_count, ring_elevations, ring_step_size, sample_rings, Angle, MotorSteps,
    ScanError, RADIUS_SCALE,
};

fn degrees(hundredths: i64) -> Angle {
    Angle { num: hundredths, den: 18000 }
}

#[test]
fn ring_step_is_the_rounded_share_of_the_turn() {
    assert_eq!(ring_step_size(800, degrees(2572)), 57);
    assert_eq!(ring_step_size(4, Angle { num: 1, den: 2 }), 1);
    assert_eq!(ring_step_size(800, Angle { num: 1, den: 2 }), 200);
    assert_eq!(ring_step_size(3, Angle { num: 1, den: 1 }), 2);
}

#[test]
fn ring_step_is_at_least_one() {
    assert_eq!(ring_step_size(800, Angle { num: 1, den: 100000 }), 1);
    assert_eq!(ring_step_size(800, Angle { num: 0, den: 1 }), 1);
    assert_eq!(ring_step_size(800, Angle { num: -1, den: 2 }), 1);
    assert_eq!(ring_step_size(-800, Angle { num: 1, den: 2 }), 1);
}

#[test]
fn ring_step_is_capped() {
    assert_eq!(ring_step_size(i32::MAX, Angle { num: i64::MAX, den: 1 }), i32::MAX);
}

#[test]
fn ring_count_includes_both_ends() {
    assert_eq!(ring_count(800, 57), 8);
    assert_eq!(ring_count(800, 400), 2);
    assert_eq!(ring_count(800, 401), 1);
    assert_eq!(ring_count(4, 1), 3);
    assert_eq!(ring_count(1, 1), 1);
}

#[test]
fn ring_elevations_climb_by_the_ring_step() {
    assert_eq!(ring_elevations(800, degrees(2572)), vec![0, 57, 114, 171, 228, 285, 342, 399]);
    assert_eq!(ring_elevations(4, Angle { num: 1, den: 2 }), vec![0, 1, 2]);
    assert_eq!(ring_elevations(800, Angle { num: 1, den: 2 }), vec![0, 200, 400]);
    assert_eq!(ring_elevations(1, Angle { num: 1, den: 2 }), vec![0]);
}

#[test]
fn a_range_that_is_not_positive_has_no_rings() {
    assert_eq!(ring_elevations(0, degrees(2572)), Vec::<i32>::new());
    assert_eq!(ring_elevations(-800, degrees(2572)), Vec::<i32>::new());
}

#[test]
fn azimuth_count_rounds_up() {
    assert_eq!(azimuth_count(RADIUS_SCALE, degrees(3416)), 11);
    assert_eq!(azimuth_count(RADIUS_SCALE, Angle { num: 1, den: 2 }), 4);
    assert_eq!(azimuth_count(RADIUS_SCALE, Angle { num: 1, den: 3 }), 6);
    assert_eq!(azimuth_count(500_000, Angle { num: 1, den: 3 }), 3);
    assert_eq!(azimuth_count(500_001, Angle { num: 1, den: 3 }), 4);
}

#[test]
fn azimuth_count_is_at_least_one() {
    assert_eq!(azimuth_count(0, degrees(3416)), 1);
    assert_eq!(azimuth_count(-RADIUS_SCALE, degrees(3416)), 1);
    assert_eq!(azimuth_count(1, degrees(3416)), 1);
    assert_eq!(azimuth_count(i32::MIN, Angle { num: 1, den: i64::MAX }), 1);
}

#[test]
fn azimuth_count_is_capped() {
    assert_eq!(azimuth_count(i32::MAX, Angle { num: 1, den: i64::MAX }), i32::MAX);
}

#[test]
fn azimuth_spacing_stays_within_the_field_of_view() {
    let fov = degrees(3416);
    for radius in [1, 1000, 250_000, 500_000, 707_107, 999_999, 1_000_000] {
        let count = azimuth_count(radius, fov) as i128;
        let circumference = 2 * radius as i128 * fov.den as i128;
        let covered = RADIUS_SCALE as i128 * fov.num as i128;
        assert!(count * covered >= circumference);
        if count > 1 {
            assert!((count - 1) * covered < circumference);
        }
    }
}

#[test]
fn sample_rings_walks_ring_after_ring() {
    let range = MotorSteps { h: 8, v: 4 };
    let quarter = Angle { num: 1, den: 2 };
    let radii = vec![1_000_000, 0, -1_000_000];
    let raw = sample_rings(range, quarter, quarter, MotorSteps { h: 0, v: 0 }, &radii).unwrap();
    assert_eq!(
        raw,
        vec![
            MotorSteps { h: 0, v: 0 },
            MotorSteps { h: 2, v: 0 },
            MotorSteps { h: -4, v: 0 },
            MotorSteps { h: -2, v: 0 },
            MotorSteps { h: 0, v: 1 },
            MotorSteps { h: 0, v: 2 },
        ]
    );
}

#[test]
fn sample_rings_rounds_and_wraps_the_azimuth() {
    let range = MotorSteps { h: 800, v: 2 };
    let third = Angle { num: 2, den: 3 };
    let radii = vec![1_000_000, 1_000_000];
    let raw = sample_rings(range, third, Angle { num: 1, den: 1 }, MotorSteps { h: 0, v: 1 }, &radii)
        .unwrap();
    assert_eq!(
        raw,
        vec![
            MotorSteps { h: 0, v: 0 },
            MotorSteps { h: 267, v: 0 },
            MotorSteps { h: -267, v: 0 },
            MotorSteps { h: 0, v: 1 },
            MotorSteps { h: 267, v: 1 },
            MotorSteps { h: -267, v: 1 },
        ]
    );
}

#[test]
fn sample_rings_on_an_odd_range_may_reach_the_upper_end() {
    let range = MotorSteps { h: 3, v: 1 };
    let radii = vec![1_000_000];
    let fov = Angle { num: 2, den: 3 };
    let raw = sample_rings(range, fov, fov, MotorSteps { h: 0, v: 0 }, &radii).unwrap();
    assert_eq!(
        raw,
        vec![MotorSteps { h: 0, v: 0 }, MotorSteps { h: 1, v: 0 }, MotorSteps { h: -1, v: 0 }]
    );
}

#[test]
fn sample_rings_refuses_an_initial_position_outside_the_hemisphere() {
    let range = MotorSteps { h: 8, v: 4 };
    let quarter = Angle { num: 1, den: 2 };
    let radii = vec![1_000_000, 0, -1_000_000];
    assert_eq!(
        sample_rings(range, quarter, quarter, MotorSteps { h: 0, v: -1 }, &radii),
        Err(ScanError::InvalidInitialPosition)
    );
    assert_eq!(
        sample_rings(range, quarter, quarter, MotorSteps { h: 0, v: 3 }, &radii),
        Err(ScanError::InvalidInitialPosition)
    );
    assert!(sample_rings(range, quarter, quarter, MotorSteps { h: 0, v: 2 }, &radii).is_ok());
}

#[test]
fn sample_rings_refuses_a_range_that_is_not_positive() {
    let quarter = Angle { num: 1, den: 2 };
    let none: Vec<i32> = Vec::new();
    let one = vec![1_000_000];
    let origin = MotorSteps { h: 0, v: 0 };
    assert_eq!(
        sample_rings(MotorSteps { h: 8, v: 0 }, quarter, quarter, origin, &none),
        Err(ScanError::Range)
    );
    assert_eq!(
        sample_rings(MotorSteps { h: 8, v: -1 }, quarter, quarter, origin, &none),
        Err(ScanError::Range)
    );
    assert_eq!(
        sample_rings(MotorSteps { h: 0, v: 1 }, quarter, quarter, origin, &one),
        Err(ScanError::Range)
    );
    assert_eq!(
        sample_rings(MotorSteps { h: -8, v: 1 }, quarter, quarter, origin, &one),
        Err(ScanError::Range)
    );
}

#[test]
fn the_initial_position_is_judged_before_the_range() {
    let quarter = Angle { num: 1, den: 2 };
    let none: Vec<i32> = Vec::new();
    assert_eq!(
        sample_rings(MotorSteps { h: 0, v: 0 }, quarter, quarter, MotorSteps { h: 0, v: 5 }, &none),
        Err(ScanError::InvalidInitialPosition)
    );
    assert_eq!(
        sample_rings(MotorSteps { h: 8, v: -2 }, quarter, quarter, MotorSteps { h: 0, v: 0 }, &none),
        Err(ScanError::InvalidInitialPosition)
    );
}
