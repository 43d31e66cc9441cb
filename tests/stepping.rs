use blob::physics::{bounce_axis, limit_speed, separate_pair, resolve_collisions, spring_forces};
use blob::geometry::{isqrt, div_trunc};
use blob::{Blob, BlobParams, Particle, Point, Spring};

fn at(x: i64, y: i64) -> Particle {
    Particle { pos: Point { x, y }, vel: Point { x: 0, y: 0 } }
}

fn moving(x: i64, y: i64, vx: i64, vy: i64) -> Particle {
    Particle { pos: Point { x, y }, vel: Point { x: vx, y: vy } }
}

/// No gravity, no damping, no bounce loss worth noting, a speed limit far
/// above anything reached, tiny particles.
fn quiet(stiffness: i64, mass: i64) -> BlobParams {
    BlobParams {
        radius: 0,
        particle_radius: 1,
        stiffness,
        mass,
        gravity: 0,
        damping: 1000,
        bounciness: 500,
        max_speed: 0x100_0000_0000,
    }
}

fn two_on_a_spring(k: i64) -> Blob {
    pair_from(0, k)
}

fn pair_from(x0: i64, k: i64) -> Blob {
    let ps = vec![at(x0, 0), at(x0 + 15_000, 0)];
    let springs = vec![Spring { particle_a: 0, particle_b: 1, rest_length: 10_000 }];
    Blob::from_parts(ps, springs, quiet(k, 2)).unwrap()
}

#[test]
fn stretched_spring_pulls_both_ends_in_symmetrically() {
    // Rest length 10 (thousandths), stretched to 15, unit masses, dt = 0.01 s:
    // each end moves k * 5 * dt^2 / m = 100 * 5000 * 1e-4 = 50 units inward.
    let mut b = two_on_a_spring(100);
    b.update(10_000, 100_000, 100_000);
    assert_eq!(b.particles[0].pos, Point { x: 50, y: 0 });
    assert_eq!(b.particles[1].pos, Point { x: 14_950, y: 0 });
    assert_eq!(b.particles[0].pos.x + b.particles[1].pos.x, 15_000);
    assert_eq!(b.particles[0].vel, Point { x: 5_000, y: 0 });
    assert_eq!(b.particles[1].vel, Point { x: -5_000, y: 0 });
}

#[test]
fn midpoint_of_spring_pair_stays_put_over_many_steps() {
    let mut b = pair_from(20_000, 100);
    for _ in 0..50 {
        b.update(10_000, 100_000, 100_000);
        assert_eq!(b.particles[0].pos.x + b.particles[1].pos.x, 55_000);
        assert_eq!(b.particles[0].pos.y, 0);
        assert_eq!(b.particles[1].pos.y, 0);
    }
}

#[test]
fn spring_forces_cancel_and_momentum_is_kept() {
    let mut b = pair_from(20_000, 3_000);
    let (fx, fy) = spring_forces(&b.particles, &b.springs, 3_000);
    assert_eq!(fx[0], 15_000_000);
    assert_eq!(fx[1], -15_000_000);
    assert_eq!(fy[0] + fy[1], 0);
    for _ in 0..5 {
        b.update(8_333, 100_000, 100_000);
        assert_eq!(b.particles[0].vel.x + b.particles[1].vel.x, 0);
        assert_eq!(b.particles[0].vel.y + b.particles[1].vel.y, 0);
    }
}

#[test]
fn particle_past_left_wall_bounces_back_at_half_speed() {
    let ps = vec![moving(-5, 50, -1_000, 0)];
    let mut b = Blob::from_parts(ps, vec![], quiet(0, 1)).unwrap();
    b.update(10_000, 100, 100);
    assert_eq!(b.particles[0].pos, Point { x: 0, y: 50 });
    assert_eq!(b.particles[0].vel, Point { x: 500, y: 0 });
}

#[test]
fn bounce_axis_on_both_walls_and_inside() {
    assert_eq!(bounce_axis(-15, -1_000, 100, 500), (0, 500));
    assert_eq!(bounce_axis(130, 700, 100, 500), (100, -350));
    assert_eq!(bounce_axis(40, 700, 100, 500), (40, 700));
    assert_eq!(bounce_axis(-1, -700, 100, 0), (0, 0));
    assert_eq!(bounce_axis(101, 700, 100, 1000), (100, -700));
}

#[test]
fn update_keeps_every_particle_in_the_viewport() {
    let origin = Point { x: 60_000, y: 60_000 };
    let mut b = Blob::new(origin, BlobParams::standard(), 7);
    for step in 0..40 {
        if step % 10 == 0 {
            b.move_blob(Point { x: -300_000, y: 150_000 });
        }
        b.update(8_333, 150_000, 120_000);
        for p in &b.particles {
            assert!(0 <= p.pos.x && p.pos.x <= 150_000);
            assert!(0 <= p.pos.y && p.pos.y <= 120_000);
        }
    }
}

#[test]
fn overlapping_pair_is_pushed_exactly_apart() {
    let mut ps = vec![at(1_000, 1_000), at(1_300, 1_400)];
    separate_pair(&mut ps, 0, 1, 400);
    let dx = (ps[0].pos.x - ps[1].pos.x) as i128;
    let dy = (ps[0].pos.y - ps[1].pos.y) as i128;
    assert!(dx * dx + dy * dy >= 800 * 800);
    // distance 500, overlap 300: each moves 150 along (3/5, 4/5)
    assert_eq!(ps[0].pos, Point { x: 910, y: 880 });
    assert_eq!(ps[1].pos, Point { x: 1_390, y: 1_520 });
}

#[test]
fn coincident_and_distant_pairs_are_left_alone() {
    let mut ps = vec![at(7, 7), at(7, 7), at(5_000, 5_000)];
    resolve_collisions(&mut ps, 100);
    assert_eq!(ps[0].pos, Point { x: 7, y: 7 });
    assert_eq!(ps[1].pos, Point { x: 7, y: 7 });
    assert_eq!(ps[2].pos, Point { x: 5_000, y: 5_000 });
}

#[test]
fn two_overlapping_particles_end_separated_after_update() {
    let ps = vec![at(500, 500), at(520, 500)];
    let mut params = quiet(0, 2);
    params.particle_radius = 50;
    let mut b = Blob::from_parts(ps, vec![], params).unwrap();
    b.update(0, 10_000, 10_000);
    let dx = (b.particles[0].pos.x - b.particles[1].pos.x) as i128;
    let dy = (b.particles[0].pos.y - b.particles[1].pos.y) as i128;
    assert!(dx * dx + dy * dy >= 100 * 100);
    assert_eq!(b.particles[0].pos.x + b.particles[1].pos.x, 1_020);
}

#[test]
fn zero_step_leaves_positions_unchanged() {
    let ps = vec![moving(100, 200, 5_000, -3_000), moving(900, 200, -1_000, 0), at(500, 800)];
    let springs = vec![
        Spring { particle_a: 0, particle_b: 1, rest_length: 300 },
        Spring { particle_a: 1, particle_b: 2, rest_length: 100 },
    ];
    let mut params = quiet(5_000, 30);
    params.gravity = 409_600;
    params.particle_radius = 10;
    let mut b = Blob::from_parts(ps, springs, params).unwrap();
    b.update(0, 1_000, 1_000);
    assert_eq!(b.particles[0].pos, Point { x: 100, y: 200 });
    assert_eq!(b.particles[1].pos, Point { x: 900, y: 200 });
    assert_eq!(b.particles[2].pos, Point { x: 500, y: 800 });
}

#[test]
fn speed_limit_is_soft_and_bounded() {
    assert_eq!(limit_speed(300, 400, 0x100_0000_0000), (300, 400));
    assert_eq!(limit_speed(0, 0, 10), (0, 0));
    // speed 10 with limit 10: 10 * 10 / sqrt(200) = 7.07
    assert_eq!(limit_speed(10, 0, 10), (7, 0));
    let (x, y) = limit_speed(1 << 59, -(1 << 59), 1_000);
    assert!(x.abs() <= 1_000 && y.abs() <= 1_000);
    assert_eq!(x, -y);
}

#[test]
fn gravity_accelerates_downwards() {
    let mut params = quiet(0, 1);
    params.gravity = 1_000_000;
    let mut b = Blob::from_parts(vec![at(0, 0)], vec![], params).unwrap();
    b.update(10_000, 1_000_000, 1_000_000);
    assert_eq!(b.particles[0].vel, Point { x: 0, y: 10_000 });
    assert_eq!(b.particles[0].pos, Point { x: 0, y: 100 });
}

#[test]
fn damping_keeps_its_share_of_velocity() {
    let mut params = quiet(0, 1);
    params.damping = 990;
    let mut b = Blob::from_parts(vec![moving(500, 500, 10_000, -20_000)], vec![], params).unwrap();
    b.update(1_000, 1_000_000, 1_000_000);
    assert_eq!(b.particles[0].vel, Point { x: 9_900, y: -19_800 });
    assert_eq!(b.particles[0].pos, Point { x: 509, y: 481 });
}

#[test]
fn move_blob_shifts_every_velocity() {
    let mut b = two_on_a_spring(100);
    b.move_blob(Point { x: 12, y: -7 });
    assert_eq!(b.particles[0].vel, Point { x: 12, y: -7 });
    assert_eq!(b.particles[1].vel, Point { x: 12, y: -7 });
    assert_eq!(b.particles[1].pos, Point { x: 15_000, y: 0 });
}

#[test]
fn from_parts_rejects_what_it_cannot_step() {
    let good = quiet(100, 2);
    assert!(Blob::from_parts(vec![], vec![], good).is_none());
    let self_loop = vec![Spring { particle_a: 0, particle_b: 0, rest_length: 1 }];
    assert!(Blob::from_parts(vec![at(0, 0)], self_loop, good).is_none());
    let dangling = vec![Spring { particle_a: 0, particle_b: 5, rest_length: 1 }];
    assert!(Blob::from_parts(vec![at(0, 0), at(1, 1)], dangling, good).is_none());
    assert!(Blob::from_parts(vec![at(1 << 40, 0)], vec![], good).is_none());
    let mut bad = good;
    bad.max_speed = 0;
    assert!(Blob::from_parts(vec![at(0, 0)], vec![], bad).is_none());
    let mut bad = good;
    bad.bounciness = 1001;
    assert!(Blob::from_parts(vec![at(0, 0)], vec![], bad).is_none());
    let b = Blob::from_parts(vec![at(0, 0), at(3, 4)], vec![], good).unwrap();
    assert_eq!(b.particle_mass, 1);
    assert_eq!(b.center_particle_index, 0);
    assert!(b.outline_particles_indices.is_empty());
}

#[test]
fn integer_helpers() {
    assert_eq!(isqrt(0), 0);
    assert_eq!(isqrt(1), 1);
    assert_eq!(isqrt(24), 4);
    assert_eq!(isqrt(25), 5);
    assert_eq!(isqrt(u128::MAX), u64::MAX);
    assert_eq!(div_trunc(-7, 2), -3);
    assert_eq!(div_trunc(7, 2), 3);
}

#[test]
fn no_collisions_without_a_positive_radius() {
    let mut params = quiet(0, 2);
    params.particle_radius = -50;
    let mut b = Blob::from_parts(vec![at(500, 500), at(520, 500)], vec![], params).unwrap();
    b.update(0, 10_000, 10_000);
    assert_eq!(b.particles[0].pos, Point { x: 500, y: 500 });
    assert_eq!(b.particles[1].pos, Point { x: 520, y: 500 });
}
