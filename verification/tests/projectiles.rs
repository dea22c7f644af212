use ballistics_calculator::projectiles::simple::{Impact, Projectile};
use ballistics_calculator::types::Vec2D;

/// The fixed-point number nearest to `value`.
fn fx(value: f64) -> i64 {
    (value * 4294967296.0).round() as i64
}

/// A time as a fixed-point number, rounded down.
fn time(value: f64) -> u64 {
    (value * 4294967296.0).floor() as u64
}

/// The value of a fixed-point number.
fn units(steps: i64) -> f64 {
    steps as f64 / 4294967296.0
}

fn vec2(x: f64, y: f64) -> Vec2D {
    Vec2D::new(fx(x), fx(y))
}

fn close(a: f64, b: f64, tolerance: f64) -> bool {
    (a - b).abs() <= tolerance
}

#[test]
fn new_starts_at_the_origin() {
    let p = Projectile::new(vec2(3.0, 10.0), fx(2.0));
    assert_eq!(p.position, Vec2D::new(0, 0));
    assert_eq!(p.velocity, vec2(3.0, 10.0));
    assert_eq!(p.gravity, fx(2.0));
}

#[test]
fn launch_from_takes_the_launch_point() {
    let p = Projectile::launch_from(vec2(-4.0, 7.0), vec2(3.0, 10.0), fx(2.0));
    assert_eq!(p.position, vec2(-4.0, 7.0));
    assert_eq!(p.velocity, vec2(3.0, 10.0));
    assert_eq!(p.gravity, fx(2.0));
}

#[test]
fn advance_follows_the_closed_form() {
    let mut p = Projectile::new(vec2(3.0, 10.0), fx(2.0));
    p.advance(time(3.0));
    // x = 3 * 3, y = 10 * 3 - 2 * 9 / 2, vy = 10 - 2 * 3
    assert_eq!(p.position, vec2(9.0, 21.0));
    assert_eq!(p.velocity, vec2(3.0, 4.0));
    assert_eq!(p.gravity, fx(2.0));

    // With the gravity and the time as the fixed point holds them.
    let g = units(fx(9.81));
    let t = time(0.3) as f64 / 4294967296.0;
    let mut q = Projectile::launch_from(vec2(1.0, 2.0), vec2(-0.5, 4.25), fx(9.81));
    q.advance(time(0.3));
    assert!(close(units(q.position.x), 1.0 - 0.5 * t, 1e-9));
    assert!(close(units(q.position.y), 2.0 + 4.25 * t - g * t * t / 2.0, 1e-9));
    assert!(close(units(q.velocity.y), 4.25 - g * t, 1e-9));
    assert_eq!(q.velocity.x, fx(-0.5));
}

#[test]
fn advance_by_zero_changes_nothing() {
    let mut p = Projectile::launch_from(vec2(5.0, 6.0), vec2(-3.0, 10.0), fx(7.0));
    let before = p;
    p.advance(0);
    assert_eq!(p, before);
}

#[test]
fn advance_carries_half_units_exactly() {
    // 2 * 1 - 1 * 1 / 2 = 1.5 and -(1 * 1) / 2 = -0.5
    let mut up = Projectile::new(vec2(0.0, 2.0), fx(1.0));
    up.advance(time(1.0));
    assert_eq!(units(up.position.y), 1.5);
    let mut down = Projectile::new(vec2(0.0, 0.0), fx(1.0));
    down.advance(time(1.0));
    assert_eq!(units(down.position.y), -0.5);
}

#[test]
fn advance_rounds_down_to_a_step() {
    // In steps: 1 * 1 / 2^32 of a step is seen as 0, -1 * 1 / 2^32 as -1.
    let forth = Projectile::new(Vec2D::new(1, 0), 0);
    assert_eq!(forth.position_at(1), Some(Vec2D::new(0, 0)));
    let back = Projectile::new(Vec2D::new(-1, 0), 0);
    assert_eq!(back.position_at(1), Some(Vec2D::new(-1, 0)));
}

#[test]
fn advance_with_upward_gravity() {
    let mut p = Projectile::new(vec2(1.0, 0.0), fx(-4.0));
    p.advance(time(5.0));
    assert_eq!(p.position, vec2(5.0, 50.0));
    assert_eq!(p.velocity, vec2(1.0, 20.0));
}

#[test]
fn without_gravity_velocity_stays_and_displacement_is_linear() {
    let mut p = Projectile::launch_from(vec2(100.0, -50.0), vec2(7.0, -3.0), 0);
    let mut elapsed = 0.0;
    for dt in [1.0, 2.0, 3.0, 10.0, 0.0, 25.0, 0.1, 0.7] {
        p.advance(time(dt));
        elapsed += dt;
        assert_eq!(p.velocity, vec2(7.0, -3.0));
        assert!(close(units(p.position.x), 100.0 + 7.0 * elapsed, 1e-9 * 7.0 * elapsed.max(1.0)));
        assert!(close(units(p.position.y), -50.0 - 3.0 * elapsed, 1e-9 * 3.0 * elapsed.max(1.0)));
    }
}

#[test]
fn horizontal_velocity_stays_under_gravity() {
    let mut p = Projectile::new(vec2(7.0, 40.0), fx(3.0));
    let mut elapsed = 0.0;
    for dt in [1.0, 4.0, 2.0, 9.0] {
        p.advance(time(dt));
        elapsed += dt;
        assert_eq!(p.velocity.x, fx(7.0));
        assert_eq!(p.position.x, fx(7.0 * elapsed));
        assert_eq!(p.velocity.y, fx(40.0 - 3.0 * elapsed));
    }
}

#[test]
fn height_rises_then_falls() {
    let p = Projectile::new(vec2(5.0, 20.0), fx(4.0));
    let h = |t: f64| units(p.position_at(time(t)).unwrap().y);
    let heights: Vec<f64> = (0..=11).map(|t| h(f64::from(t))).collect();
    assert_eq!(
        heights,
        vec![0.0, 18.0, 32.0, 42.0, 48.0, 50.0, 48.0, 42.0, 32.0, 18.0, 0.0, -22.0]
    );
    // The peak is at vy / g = 5.
    let times = [0.0, 0.5, 1.0, 2.25, 4.0, 4.75, 4.999, 5.0];
    for pair in times.windows(2) {
        assert!(h(pair[0]) < h(pair[1]), "{:?}", pair);
    }
    let times = [5.0, 5.001, 5.5, 7.0, 9.875, 10.0, 12.0];
    for pair in times.windows(2) {
        assert!(h(pair[0]) > h(pair[1]), "{:?}", pair);
    }
}

#[test]
fn height_rises_strictly_up_to_the_peak() {
    // With vy = 3 and g = 1 the peak is at t = 3: 4 at t = 2, 4.5 at t = 3, 4 at t = 4.
    let p = Projectile::new(vec2(0.0, 3.0), fx(1.0));
    let h = |t: f64| units(p.position_at(time(t)).unwrap().y);
    assert_eq!((h(2.0), h(3.0), h(4.0)), (4.0, 4.5, 4.0));
    assert!(h(2.0) < h(3.0));
    assert!(h(3.0) > h(4.0));
}

#[test]
fn position_at_leaves_the_projectile_alone() {
    let p = Projectile::launch_from(vec2(1.0, 2.0), vec2(3.0, 4.0), fx(5.0));
    let before = p;
    assert_eq!(p.position_at(time(2.0)), Some(vec2(7.0, 0.0)));
    assert_eq!(p, before);
}

#[test]
fn position_at_agrees_with_advance() {
    let start = Projectile::launch_from(vec2(-9.0, 30.0), vec2(11.0, 17.0), fx(3.0));
    for t in [0.0, 1.0, 2.0, 5.0, 13.0, 40.0, 0.37, 6.125] {
        let mut p = start;
        p.advance(time(t));
        assert_eq!(Some(p.position), start.position_at(time(t)));
    }
}

#[test]
fn time_to_impact_from_the_ground() {
    // 10 t - t^2 = 0 at t = 10
    let p = Projectile::new(vec2(3.0, 10.0), fx(2.0));
    assert_eq!(p.time_to_impact(0), Impact::At(time(10.0)));
}

#[test]
fn time_to_impact_from_a_height() {
    // 100 + 0 t - 2 t^2 / 2 = 0 at t = 10
    let p = Projectile::new(vec2(1.0, 0.0), fx(2.0));
    assert_eq!(p.time_to_impact(fx(100.0)), Impact::At(time(10.0)));
    // 24 + 10 t - t^2 = 0 at t = 12, the later of -2 and 12
    let q = Projectile::new(vec2(1.0, 10.0), fx(2.0));
    assert_eq!(q.time_to_impact(fx(24.0)), Impact::At(time(12.0)));
}

#[test]
fn time_to_impact_between_whole_times() {
    // 7 t - 3 t^2 / 2 = 0 at t = 14 / 3
    let p = Projectile::new(vec2(2.0, 7.0), fx(3.0));
    match p.time_to_impact(0) {
        Impact::At(t) => {
            assert_eq!(t, (14u64 << 32) / 3);
            assert!(close(t as f64 / 4294967296.0, 14.0 / 3.0, 1e-9));
            let q = p.position_at(t).unwrap();
            assert!(units(q.y).abs() <= 1e-9 * (7.0f64 * 7.0 / 3.0));
            assert!(close(units(q.x), 2.0 * 14.0 / 3.0, 1e-9 * 2.0 * 14.0 / 3.0));
        }
        other => panic!("{:?}", other),
    }
    // 5 - t^2 / 2 = 0 at t = sqrt(10)
    let q = Projectile::new(vec2(0.0, 0.0), fx(1.0));
    match q.time_to_impact(fx(5.0)) {
        Impact::At(t) => assert!(close(t as f64 / 4294967296.0, 10f64.sqrt(), 1e-9)),
        other => panic!("{:?}", other),
    }
}

#[test]
fn time_to_impact_matches_the_flight() {
    for (vy, g, h) in [
        (10.0, 2.0, 0.0),
        (7.0, 3.0, 0.0),
        (0.0, 1.0, 5.0),
        (-4.0, 5.0, 1000.0),
        (300.0, 9.81, 17.0),
        (1.0, 1000.0, 0.0),
        (0.001, 9.81, 0.0),
    ] {
        let p = Projectile::launch_from(vec2(0.0, h), vec2(2.0, vy), fx(g));
        match p.time_to_impact(fx(h)) {
            Impact::At(t) => {
                let there = p.position_at(t).unwrap();
                assert!(there.y >= 0, "{} {} {}", vy, g, h);
                assert!(p.position_at(t + 1).unwrap().y < 0, "{} {} {}", vy, g, h);
                let scale = (vy * vy / g).max(h).max(1.0);
                assert!(units(there.y) <= 1e-9 * scale, "{} {} {}", vy, g, h);
                let exact = (vy + (vy * vy + 2.0 * g * h).sqrt()) / g;
                assert!(close(t as f64 / 4294967296.0, exact, 1e-9 * exact.max(1.0)));
            }
            other => panic!("{} {} {} gives {:?}", vy, g, h, other),
        }
    }
}

#[test]
fn impact_on_a_step_is_on_the_ground() {
    let p = Projectile::new(vec2(3.0, 10.0), fx(2.0));
    assert_eq!(p.time_to_impact(0), Impact::At(time(10.0)));
    assert_eq!(p.position_at(time(10.0)), Some(vec2(30.0, 0.0)));
    let q = Projectile::launch_from(vec2(0.0, 24.0), vec2(-1.0, 10.0), fx(2.0));
    assert_eq!(q.time_to_impact(fx(24.0)), Impact::At(time(12.0)));
    assert_eq!(q.position_at(time(12.0)), Some(vec2(-12.0, 0.0)));
}

#[test]
fn without_gravity_it_never_lands() {
    assert_eq!(Projectile::new(vec2(3.0, 10.0), 0).time_to_impact(0), Impact::Never);
    assert_eq!(Projectile::new(vec2(3.0, 0.0), 0).time_to_impact(0), Impact::Never);
    assert_eq!(Projectile::new(vec2(3.0, -10.0), 0).time_to_impact(fx(50.0)), Impact::Never);
}

#[test]
fn without_a_real_root_it_never_lands() {
    // From below the ground, too slow to come up to it: 9 - 2 * 1 * 5 < 0.
    let p = Projectile::new(vec2(0.0, 3.0), fx(1.0));
    assert_eq!(p.time_to_impact(fx(-5.0)), Impact::Never);
    // Upward gravity from above the ground: 1 - 2 * 1 * 5 < 0.
    let q = Projectile::new(vec2(0.0, 1.0), fx(-1.0));
    assert_eq!(q.time_to_impact(fx(5.0)), Impact::Never);
}

#[test]
fn with_both_roots_in_the_past_it_never_lands() {
    // -1 - 10 t - t^2 / 2 = 0 only at negative t.
    let p = Projectile::new(vec2(0.0, -10.0), fx(1.0));
    assert_eq!(p.time_to_impact(fx(-1.0)), Impact::Never);
}

#[test]
fn time_to_impact_from_below_the_ground_takes_the_later_root() {
    // -8 + 6 t - t^2 = 0 at t = 2 and t = 4
    let p = Projectile::new(vec2(0.0, 6.0), fx(2.0));
    assert_eq!(p.time_to_impact(fx(-8.0)), Impact::At(time(4.0)));
}

#[test]
fn time_to_impact_with_upward_gravity_takes_the_later_root() {
    // 10 - 10 t + t^2 / 2 = 0 at t = 10 - sqrt(80) and t = 10 + sqrt(80)
    let p = Projectile::new(vec2(0.0, -10.0), fx(-1.0));
    match p.time_to_impact(fx(10.0)) {
        Impact::At(t) => assert!(close(t as f64 / 4294967296.0, 10.0 + 80f64.sqrt(), 1e-9 * 20.0)),
        other => panic!("{:?}", other),
    }
}

#[test]
fn time_to_impact_beyond_what_the_time_can_tell() {
    // Gravity of one step, 2^-32: 2 * 1000 / 2^-32 is far more than 2^32.
    let p = Projectile::new(vec2(0.0, 1000.0), 1);
    assert_eq!(p.time_to_impact(0), Impact::Beyond);
    assert_eq!(p.trajectory(time(1.0)), None);
    // 2 * vy / g = 2^32 - 2^-31 still fits, one step of velocity more does not.
    let q = Projectile::new(Vec2D::new(0, i64::MAX), ONE_STEP_PER_UNIT);
    assert_eq!(q.time_to_impact(0), Impact::At(u64::MAX - 1));
    let r = Projectile::new(Vec2D::new(0, i64::MAX), ONE_STEP_PER_UNIT - 1);
    assert_eq!(r.time_to_impact(0), Impact::Beyond);
}

/// The gravity 1.
const ONE_STEP_PER_UNIT: i64 = 4_294_967_296;

#[test]
fn trajectory_samples_until_the_impact() {
    let p = Projectile::new(vec2(3.0, 10.0), fx(2.0));
    let every_unit = p.trajectory(time(1.0)).unwrap();
    assert_eq!(every_unit.len(), 11);
    assert_eq!(every_unit[0], Vec2D::new(0, 0));
    assert_eq!(every_unit[1], vec2(3.0, 9.0));
    assert_eq!(every_unit[5], vec2(15.0, 25.0));
    assert_eq!(every_unit[10], vec2(30.0, 0.0));

    let every_third = p.trajectory(time(3.0)).unwrap();
    assert_eq!(every_third, vec![vec2(0.0, 0.0), vec2(9.0, 21.0), vec2(18.0, 24.0), vec2(27.0, 9.0)]);

    let every_quarter = p.trajectory(time(0.25)).unwrap();
    assert_eq!(every_quarter.len(), 41);
    assert_eq!(every_quarter[1], vec2(0.75, 2.4375));
    assert_eq!(every_quarter[40], vec2(30.0, 0.0));
}

#[test]
fn trajectory_with_a_step_beyond_the_impact_is_the_launch_point() {
    let p = Projectile::launch_from(vec2(4.0, 0.0), vec2(3.0, 10.0), fx(2.0));
    assert_eq!(p.trajectory(time(10.5)).unwrap(), vec![vec2(4.0, 0.0)]);
    assert_eq!(p.trajectory(u64::MAX).unwrap(), vec![vec2(4.0, 0.0)]);
}

#[test]
fn trajectory_can_be_taken_again() {
    let p = Projectile::launch_from(vec2(0.0, 12.0), vec2(2.0, 5.0), fx(3.0));
    let before = p;
    let first = p.trajectory(time(0.5)).unwrap();
    let second = p.trajectory(time(0.5)).unwrap();
    assert_eq!(first, second);
    assert_eq!(p, before);
    let finer = p.trajectory(time(0.25)).unwrap();
    for (k, sample) in first.iter().enumerate() {
        assert_eq!(*sample, finer[2 * k]);
    }
}

#[test]
fn trajectory_stays_above_the_ground() {
    let p = Projectile::launch_from(vec2(0.0, 40.0), vec2(9.0, 33.0), fx(4.0));
    let path = p.trajectory(time(0.125)).unwrap();
    assert!(path.iter().all(|q| q.y >= 0));
    assert!(p.position_at(path.len() as u64 * time(0.125)).unwrap().y < 0);
}

#[test]
fn trajectory_of_a_flight_that_never_lands_is_none() {
    assert_eq!(Projectile::new(vec2(3.0, 10.0), 0).trajectory(time(1.0)), None);
    assert_eq!(
        Projectile::launch_from(vec2(0.0, -5.0), vec2(0.0, 3.0), fx(1.0)).trajectory(time(1.0)),
        None
    );
}

#[test]
fn trajectory_with_step_zero_is_none() {
    assert_eq!(Projectile::new(vec2(3.0, 10.0), fx(2.0)).trajectory(0), None);
}

#[test]
fn position_at_is_none_outside_the_range() {
    let p = Projectile::new(vec2(1.0, 0.0), 0);
    assert_eq!(p.position_at(i64::MAX as u64), Some(Vec2D::new(i64::MAX, 0)));
    assert_eq!(p.position_at(1 << 63), None);
    assert_eq!(p.position_at(u64::MAX), None);
    let q = Projectile::new(vec2(-1.0, 0.0), 0);
    assert_eq!(q.position_at(1 << 63), Some(Vec2D::new(i64::MIN, 0)));
    assert_eq!(q.position_at((1 << 63) + 1), None);
    // The height leaves the range: -t^2 / 2 at t = 65536 is -2^31, one step of time later it is below.
    let r = Projectile::new(vec2(0.0, 0.0), fx(1.0));
    assert_eq!(r.position_at(time(65536.0)), Some(Vec2D::new(0, i64::MIN)));
    assert_eq!(r.position_at(time(65536.0) + 1), None);
    assert_eq!(r.position_at(u64::MAX), None);
    let s = Projectile::new(Vec2D::new(0, i64::MIN), i64::MIN);
    assert_eq!(s.position_at(u64::MAX), None);
    assert_eq!(s.position_at(0), Some(Vec2D::new(0, 0)));
    let t = Projectile::new(Vec2D::new(0, i64::MAX), i64::MIN);
    assert_eq!(t.position_at(u64::MAX), None);
    assert_eq!(t.position_at(1 << 40), None);
}

#[test]
fn trajectory_that_leaves_the_range_is_none() {
    // Lands after about 2^32 units of time, far outside what x can hold.
    let p = Projectile::launch_from(vec2(0.0, 1.0), Vec2D::new(fx(2.0), i64::MAX), fx(1.0));
    assert_eq!(p.trajectory(1 << 62), None);
}

#[test]
fn can_advance_tells_whether_the_new_state_fits() {
    let p = Projectile::new(vec2(1.0, 0.0), 0);
    assert!(p.can_advance(0));
    assert!(p.can_advance(i64::MAX as u64));
    assert!(!p.can_advance(1 << 63));
    // The velocity leaves the range before the position does.
    let q = Projectile::new(Vec2D::new(0, i64::MIN), fx(1.0));
    assert!(q.can_advance(0));
    assert!(!q.can_advance(1));
    let r = Projectile::new(vec2(0.0, 0.0), fx(1.0));
    assert!(r.can_advance(time(65536.0)));
    assert!(!r.can_advance(time(65536.0) + 1));
    assert!(!r.can_advance(u64::MAX));
    let mut s = Projectile::launch_from(vec2(-9.0, 30.0), vec2(11.0, 17.0), fx(3.0));
    assert!(s.can_advance(time(40.0)));
    s.advance(time(40.0));
    assert_eq!(s.position, vec2(431.0, -1690.0));
    assert_eq!(s.velocity, vec2(11.0, -103.0));
}
