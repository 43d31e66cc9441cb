//! The physics stepper: spring forces, integration, wall bounces and
//! overlap resolution, each stated exactly over integer arithmetic.
use vstd::prelude::*;
use crate::params::{BlobParams, PERMILLE, MAX_MASS, MAX_DT, MAX_SPEED, MAX_GRAVITY};
use crate::geometry::{Point, sq_len, sq_dist, floor_sqrt, is_floor_sqrt, tdiv, isqrt, div_trunc,
    lemma_sq_len_nonneg, lemma_floor_sqrt_exists, lemma_floor_sqrt_bound, lemma_component_le_len,
    lemma_tdiv_bound, lemma_tdiv_odd, lemma_floor_sqrt_ge, lemma_square_le};

verus! {

/// Largest coordinate magnitude a particle may hold between steps.
pub const POS_LIMIT: i64 = 0x8000_0000;
/// Largest velocity component magnitude a particle may hold between steps.
pub const VEL_LIMIT: i64 = 0x200_0000_0000;
/// Largest rest length a spring may hold.
pub const REST_LIMIT: u64 = 0x2_0000_0000;
/// Largest spring stiffness.
pub const MAX_STIFFNESS: i64 = 0x100_0000;
/// Largest number of springs in one blob.
pub const MAX_SPRINGS: usize = 0x2000_0000;
/// Largest number of particles in one blob.
pub const MAX_PARTICLES: usize = 0x10_0000;

/// One point mass of the mesh: its position and its velocity (length units
/// per second).
#[derive(Clone, Copy, Debug, PartialEq, Eq, Structural)]
pub struct Particle {
    pub pos: Point,
    pub vel: Point,
}

/// An elastic link between particles `particle_a` and `particle_b`, with the
/// length at which it pulls neither way.
#[derive(Clone, Copy, Debug, PartialEq, Eq, Structural)]
pub struct Spring {
    pub particle_a: usize,
    pub particle_b: usize,
    pub rest_length: u64,
}

/// Both coordinates of `p` lie within `[-limit, limit]`.
pub open spec fn coord_ok(p: Point, limit: int) -> bool {
    -limit <= p.x <= limit && -limit <= p.y <= limit
}

/// Every spring joins two distinct particles of a mesh of `n` particles.
pub open spec fn springs_valid(springs: Seq<Spring>, n: int) -> bool {
    forall|k: int|
        0 <= k < springs.len() ==> {
            let s = #[trigger] springs[k];
            &&& s.particle_a < n
            &&& s.particle_b < n
            &&& s.particle_a != s.particle_b
            &&& s.rest_length <= REST_LIMIT
        }
}

/// Every particle lies within the coordinate and velocity limits.
pub open spec fn particles_bounded(ps: Seq<Particle>) -> bool {
    forall|i: int|
        0 <= i < ps.len() ==> coord_ok(#[trigger] ps[i].pos, POS_LIMIT as int) && coord_ok(
            ps[i].vel,
            VEL_LIMIT as int,
        )
}

/// The pull of spring `s` on its particle `a`, negated: the force vector
/// added to particle `b` and subtracted from particle `a`. Hooke's law along
/// the line joining the two, zero when they coincide.
pub open spec fn spring_push(ps: Seq<Particle>, s: Spring, k: int) -> (int, int) {
    let dx = ps[s.particle_a as int].pos.x - ps[s.particle_b as int].pos.x;
    let dy = ps[s.particle_a as int].pos.y - ps[s.particle_b as int].pos.y;
    let len = floor_sqrt(sq_len(dx, dy));
    if len > 0 {
        let f = k * (len - s.rest_length);
        (tdiv(dx * f, len), tdiv(dy * f, len))
    } else {
        (0, 0)
    }
}

/// What spring `s` adds to the force on particle `i`.
pub open spec fn spring_share(ps: Seq<Particle>, s: Spring, k: int, i: int) -> (int, int) {
    let f = spring_push(ps, s, k);
    if s.particle_a == i {
        (-f.0, -f.1)
    } else if s.particle_b == i {
        (f.0, f.1)
    } else {
        (0, 0)
    }
}

/// The spring force on particle `i` from the first `c` springs.
pub open spec fn spring_force(ps: Seq<Particle>, springs: Seq<Spring>, k: int, c: int, i: int) -> (
    int,
    int,
)
    decreases c,
{
    if c <= 0 {
        (0, 0)
    } else {
        let prev = spring_force(ps, springs, k, c - 1, i);
        let add = spring_share(ps, springs[c - 1], k, i);
        (prev.0 + add.0, prev.1 + add.1)
    }
}

/// A spring's force is bounded when positions and rest length are.
proof fn lemma_push_bounded(ps: Seq<Particle>, s: Spring, k: int)
    requires
        0 <= s.particle_a < ps.len(),
        0 <= s.particle_b < ps.len(),
        particles_bounded(ps),
        s.rest_length <= REST_LIMIT,
        0 <= k <= MAX_STIFFNESS,
    ensures
        -0x400_0000_0000_0000 <= spring_push(ps, s, k).0 <= 0x400_0000_0000_0000,
        -0x400_0000_0000_0000 <= spring_push(ps, s, k).1 <= 0x400_0000_0000_0000,
{
    let pa = ps[s.particle_a as int].pos;
    let pb = ps[s.particle_b as int].pos;
    let dx = pa.x - pb.x;
    let dy = pa.y - pb.y;
    let v = sq_len(dx, dy);
    lemma_sq_len_nonneg(dx, dy);
    let len = floor_sqrt(v);
    if len > 0 {
        lemma_floor_sqrt_exists(v);
        let d = len - s.rest_length;
        let f = k * d;
        assert(-0x1_0000_0000 <= dx <= 0x1_0000_0000);
        assert(-0x1_0000_0000 <= dy <= 0x1_0000_0000);
        assert(v <= 0x2_0000_0000 * 0x2_0000_0000) by (nonlinear_arith)
            requires
                v == dx * dx + dy * dy,
                -0x1_0000_0000 <= dx <= 0x1_0000_0000,
                -0x1_0000_0000 <= dy <= 0x1_0000_0000,
        ;
        lemma_floor_sqrt_bound(v, 0x2_0000_0000);
        assert(-0x4_0000_0000 <= d <= 0x4_0000_0000);
        assert(-0x400_0000_0000_0000 <= f <= 0x400_0000_0000_0000) by (nonlinear_arith)
            requires
                f == k * d,
                0 <= k <= 0x100_0000,
                -0x4_0000_0000 <= d <= 0x4_0000_0000,
        ;
        lemma_component_le_len(dx, dy, len);
        lemma_scaled_part(dx, f, len);
        lemma_component_le_len(dy, dx, len);
        assert(sq_len(dy, dx) == v);
        lemma_scaled_part(dy, f, len);
    }
}





/// `tdiv(dx * f, len)` is no larger than `f` when `|dx| <= len`.
proof fn lemma_scaled_part(dx: int, f: int, len: int)
    requires
        -len <= dx <= len,
        len > 0,
        -0x400_0000_0000_0000 <= f <= 0x400_0000_0000_0000,
    ensures
        -0x400_0000_0000_0000 <= tdiv(dx * f, len) <= 0x400_0000_0000_0000,
{
    let a = dx * f;
    assert(-0x400_0000_0000_0000 * len <= a <= 0x400_0000_0000_0000 * len) by (nonlinear_arith)
        requires
            a == dx * f,
            -len <= dx <= len,
            len > 0,
            -0x400_0000_0000_0000 <= f <= 0x400_0000_0000_0000,
    ;
    lemma_tdiv_bound(a, len, 0x400_0000_0000_0000);
}



/// The force vector that spring `s` exerts, as the stepper computes it.
pub fn spring_push_exec(ps: &Vec<Particle>, s: Spring, k: i64) -> (r: (i128, i128))
    requires
        s.particle_a < ps.len(),
        s.particle_b < ps.len(),
        particles_bounded(ps@),
        s.rest_length <= REST_LIMIT,
        0 <= k <= MAX_STIFFNESS,
    ensures
        r.0 == spring_push(ps@, s, k as int).0,
        r.1 == spring_push(ps@, s, k as int).1,
{
    proof {
        lemma_push_bounded(ps@, s, k as int);
    }
    let pa = ps[s.particle_a].pos;
    let pb = ps[s.particle_b].pos;
    let dx: i128 = pa.x as i128 - pb.x as i128;
    let dy: i128 = pa.y as i128 - pb.y as i128;
    assert(dx * dx <= 0x1_0000_0000_0000_0000) by (nonlinear_arith)
        requires
            -0x1_0000_0000 <= dx <= 0x1_0000_0000,
    ;
    assert(dy * dy <= 0x1_0000_0000_0000_0000) by (nonlinear_arith)
        requires
            -0x1_0000_0000 <= dy <= 0x1_0000_0000,
    ;
    proof {
        lemma_sq_len_nonneg(dx as int, dy as int);
    }
    let v: i128 = dx * dx + dy * dy;
    let len: u64 = isqrt(v as u128);
    if len > 0 {
        proof {
            lemma_floor_sqrt_bound(v as int, 0x2_0000_0000);
            lemma_component_le_len(dx as int, dy as int, len as int);
            lemma_component_le_len(dy as int, dx as int, len as int);
        }
        let d: i128 = len as i128 - s.rest_length as i128;
        assert(-0x400_0000_0000_0000 <= k * d <= 0x400_0000_0000_0000) by (nonlinear_arith)
            requires
                0 <= k <= 0x100_0000,
                -0x4_0000_0000 <= d <= 0x4_0000_0000,
        ;
        let f: i128 = k as i128 * d;
        assert(-0x800_0000_0000_0000_0000_0000 <= dx * f <= 0x800_0000_0000_0000_0000_0000)
            by (nonlinear_arith)
            requires
                -0x1_0000_0000 <= dx <= 0x1_0000_0000,
                -0x400_0000_0000_0000 <= f <= 0x400_0000_0000_0000,
        ;
        assert(-0x800_0000_0000_0000_0000_0000 <= dy * f <= 0x800_0000_0000_0000_0000_0000)
            by (nonlinear_arith)
            requires
                -0x1_0000_0000 <= dy <= 0x1_0000_0000,
                -0x400_0000_0000_0000 <= f <= 0x400_0000_0000_0000,
        ;
        let ax: i128 = dx * f;
        let ay: i128 = dy * f;
        (div_trunc(ax, len as i128), div_trunc(ay, len as i128))
    } else {
        (0, 0)
    }
}


/// The sum over the first `n` particles of the spring force on each.
pub open spec fn total_spring_force(ps: Seq<Particle>, springs: Seq<Spring>, k: int, c: int, n: int) -> (
    int,
    int,
)
    decreases n,
{
    if n <= 0 {
        (0, 0)
    } else {
        let prev = total_spring_force(ps, springs, k, c, n - 1);
        let f = spring_force(ps, springs, k, c, n - 1);
        (prev.0 + f.0, prev.1 + f.1)
    }
}

/// The sum over the first `n` particles of what spring `s` adds to each.
pub open spec fn share_sum(ps: Seq<Particle>, s: Spring, k: int, n: int) -> (int, int)
    decreases n,
{
    if n <= 0 {
        (0, 0)
    } else {
        let prev = share_sum(ps, s, k, n - 1);
        let f = spring_share(ps, s, k, n - 1);
        (prev.0 + f.0, prev.1 + f.1)
    }
}

/// Summed over the particles, a spring adds its force to one end and
/// takes it from the other.
proof fn lemma_share_sum(ps: Seq<Particle>, s: Spring, k: int, n: int)
    requires
        s.particle_a != s.particle_b,
        n >= 0,
    ensures
        share_sum(ps, s, k, n).0 == (if s.particle_a < n {
            -spring_push(ps, s, k).0
        } else {
            0
        }) + (if s.particle_b < n {
            spring_push(ps, s, k).0
        } else {
            0
        }),
        share_sum(ps, s, k, n).1 == (if s.particle_a < n {
            -spring_push(ps, s, k).1
        } else {
            0
        }) + (if s.particle_b < n {
            spring_push(ps, s, k).1
        } else {
            0
        }),
    decreases n,
{
    if n > 0 {
        lemma_share_sum(ps, s, k, n - 1);
    }
}

/// The total over the particles grows spring by spring.
proof fn lemma_total_step(ps: Seq<Particle>, springs: Seq<Spring>, k: int, c: int, n: int)
    requires
        1 <= c <= springs.len(),
        n >= 0,
    ensures
        total_spring_force(ps, springs, k, c, n).0 == total_spring_force(ps, springs, k, c - 1, n).0
            + share_sum(ps, springs[c - 1], k, n).0,
        total_spring_force(ps, springs, k, c, n).1 == total_spring_force(ps, springs, k, c - 1, n).1
            + share_sum(ps, springs[c - 1], k, n).1,
    decreases n,
{
    if n > 0 {
        lemma_total_step(ps, springs, k, c, n - 1);
    }
}

/// Springs only move momentum between particles: summed over all the
/// particles, the spring forces cancel.
pub proof fn lemma_spring_forces_cancel(ps: Seq<Particle>, springs: Seq<Spring>, k: int, c: int)
    requires
        springs_valid(springs, ps.len() as int),
        0 <= c <= springs.len(),
    ensures
        total_spring_force(ps, springs, k, c, ps.len() as int) == (0int, 0int),
    decreases c,
{
    let n = ps.len() as int;
    if c == 0 {
        lemma_total_zero(ps, springs, k, n);
    } else {
        lemma_spring_forces_cancel(ps, springs, k, c - 1);
        lemma_total_step(ps, springs, k, c, n);
        let s = springs[c - 1];
        assert(s.particle_a < n && s.particle_b < n && s.particle_a != s.particle_b);
        lemma_share_sum(ps, s, k, n);
    }
}

/// With no spring counted, the total force is zero.
proof fn lemma_total_zero(ps: Seq<Particle>, springs: Seq<Spring>, k: int, n: int)
    requires
        n >= 0,
    ensures
        total_spring_force(ps, springs, k, 0, n) == (0int, 0int),
    decreases n,
{
    if n > 0 {
        lemma_total_zero(ps, springs, k, n - 1);
    }
}

/// The velocity change that a force `f` gives a particle of mass `m` over
/// `dt` microseconds.
pub open spec fn kick(f: int, m: int, dt: int) -> int {
    tdiv(tdiv(f, m) * dt, MICROS as int)
}

/// Microseconds per second.
pub const MICROS: i128 = 1_000_000;

/// Two particles of equal mass joined by springs alone: in every step the
/// springs change their velocities by equal and opposite amounts, so the
/// pair's momentum is kept.
pub proof fn lemma_two_particle_momentum(
    ps: Seq<Particle>,
    springs: Seq<Spring>,
    k: int,
    m: int,
    dt: int,
)
    requires
        ps.len() == 2,
        springs_valid(springs, 2),
        m > 0,
    ensures
        kick(spring_force(ps, springs, k, springs.len() as int, 0).0, m, dt) == -kick(
            spring_force(ps, springs, k, springs.len() as int, 1).0,
            m,
            dt,
        ),
        kick(spring_force(ps, springs, k, springs.len() as int, 0).1, m, dt) == -kick(
            spring_force(ps, springs, k, springs.len() as int, 1).1,
            m,
            dt,
        ),
{
    let c = springs.len() as int;
    lemma_spring_forces_cancel(ps, springs, k, c);
    assert(total_spring_force(ps, springs, k, c, 0) == (0int, 0int));
    assert(total_spring_force(ps, springs, k, c, 1) == spring_force(ps, springs, k, c, 0));
    assert(total_spring_force(ps, springs, k, c, 2) == (0int, 0int));
    let f0 = spring_force(ps, springs, k, c, 0);
    let f1 = spring_force(ps, springs, k, c, 1);
    assert(f0.0 == -f1.0 && f0.1 == -f1.1);
    lemma_tdiv_odd(f1.0, m);
    lemma_tdiv_odd(f1.1, m);
    let a0 = tdiv(f1.0, m);
    let a1 = tdiv(f1.1, m);
    assert((-a0) * dt == -(a0 * dt)) by (nonlinear_arith);
    assert((-a1) * dt == -(a1 * dt)) by (nonlinear_arith);
    lemma_tdiv_odd(a0 * dt, MICROS as int);
    lemma_tdiv_odd(a1 * dt, MICROS as int);
}

/// Accumulates the spring forces on every particle.
pub fn spring_forces(ps: &Vec<Particle>, springs: &Vec<Spring>, k: i64) -> (r: (Vec<i128>, Vec<i128>))
    requires
        particles_bounded(ps@),
        springs_valid(springs@, ps.len() as int),
        springs.len() <= MAX_SPRINGS,
        0 <= k <= MAX_STIFFNESS,
    ensures
        r.0.len() == ps.len(),
        r.1.len() == ps.len(),
        forall|i: int|
            0 <= i < ps.len() ==> {
                &&& #[trigger] r.0[i] == spring_force(ps@, springs@, k as int, springs.len() as int, i).0
                &&& r.1[i] == spring_force(ps@, springs@, k as int, springs.len() as int, i).1
            },
        forall|i: int|
            0 <= i < ps.len() ==> -FORCE_LIMIT <= #[trigger] r.0[i] <= FORCE_LIMIT && -FORCE_LIMIT
                <= r.1[i] <= FORCE_LIMIT,
{
    let n = ps.len();
    let mut fx: Vec<i128> = Vec::new();
    let mut fy: Vec<i128> = Vec::new();
    let mut i: usize = 0;
    while i < n
        invariant
            i <= n,
            n == ps.len(),
            fx.len() == i,
            fy.len() == i,
            forall|j: int| 0 <= j < i ==> fx[j] == 0 && fy[j] == 0,
        decreases n - i,
    {
        fx.push(0);
        fy.push(0);
        i = i + 1;
    }
    let mut c: usize = 0;
    while c < springs.len()
        invariant
            c <= springs.len(),
            n == ps.len(),
            fx.len() == n,
            fy.len() == n,
            particles_bounded(ps@),
            springs_valid(springs@, ps.len() as int),
            springs.len() <= MAX_SPRINGS,
            0 <= k <= MAX_STIFFNESS,
            forall|j: int|
                0 <= j < n ==> {
                    &&& #[trigger] fx[j] == spring_force(ps@, springs@, k as int, c as int, j).0
                    &&& fy[j] == spring_force(ps@, springs@, k as int, c as int, j).1
                    &&& -c * 0x400_0000_0000_0000 <= fx[j] <= c * 0x400_0000_0000_0000
                    &&& -c * 0x400_0000_0000_0000 <= fy[j] <= c * 0x400_0000_0000_0000
                },
        decreases springs.len() - c,
    {
        let s = springs[c];
        assert(springs@[c as int] == s);
        let f = spring_push_exec(ps, s, k);
        proof {
            lemma_push_bounded(ps@, s, k as int);
        }
        let a = s.particle_a;
        let b = s.particle_b;
        let ghost ofx = fx@;
        let ghost ofy = fy@;
        let na: i128 = fx[a] - f.0;
        fx.set(a, na);
        let nb: i128 = fx[b] + f.0;
        fx.set(b, nb);
        let ma: i128 = fy[a] - f.1;
        fy.set(a, ma);
        let mb: i128 = fy[b] + f.1;
        fy.set(b, mb);
        c = c + 1;
        assert forall|j: int| 0 <= j < n implies {
            &&& #[trigger] fx[j] == spring_force(ps@, springs@, k as int, c as int, j).0
            &&& fy[j] == spring_force(ps@, springs@, k as int, c as int, j).1
            &&& -c * 0x400_0000_0000_0000 <= fx[j] <= c * 0x400_0000_0000_0000
            &&& -c * 0x400_0000_0000_0000 <= fy[j] <= c * 0x400_0000_0000_0000
        } by {
            assert(ofx[j] == spring_force(ps@, springs@, k as int, c - 1, j).0);
            if j == a {
                assert(fx[j] == ofx[j] - f.0);
                assert(fy[j] == ofy[j] - f.1);
            } else if j == b {
                assert(fx[j] == ofx[j] + f.0);
                assert(fy[j] == ofy[j] + f.1);
            } else {
                assert(fx[j] == ofx[j]);
                assert(fy[j] == ofy[j]);
            }
            assert(spring_force(ps@, springs@, k as int, c as int, j) == {
                let prev = spring_force(ps@, springs@, k as int, c - 1, j);
                let add = spring_share(ps@, springs@[c - 1], k as int, j);
                (prev.0 + add.0, prev.1 + add.1)
            });
        }
    }
    (fx, fy)
}

/// Bound on the magnitude of a force component that the springs produce.
pub const FORCE_LIMIT: i128 = 0x400_0000_0000_0000_0000_0000;

/// Velocity components beyond this magnitude saturate before the speed limit
/// is applied, so that squared speeds stay representable.
pub const VEL_GUARD: i128 = 0x1000_0000_0000_0000;

pub open spec fn clamp(v: int, lo: int, hi: int) -> int {
    if v < lo {
        lo
    } else if v > hi {
        hi
    } else {
        v
    }
}

/// One velocity component after the force kick and the damping.
pub open spec fn kicked_velocity(v: int, f: int, m: int, dt: int, damping: int) -> int {
    clamp(
        tdiv((v + kick(f, m, dt)) * damping, PERMILLE as int),
        -VEL_GUARD as int,
        VEL_GUARD as int,
    )
}

/// The soft speed limit on component `v` of the velocity `(v, w)`: the
/// speed `s` becomes `s * max / sqrt(s^2 + max^2)`, close to `s` when slow
/// and always below `max`.
pub open spec fn speed_limited(v: int, w: int, max: int) -> int {
    tdiv(v * max, floor_sqrt(v * v + w * w + max * max))
}

/// Position and velocity along one axis after a wall at `0` or at `hi`
/// stops a particle that has passed it: the particle is put on the wall and
/// its velocity reversed and scaled by `bounciness` (parts per thousand).
pub open spec fn bounce(p: int, v: int, hi: int, bounciness: int) -> (int, int) {
    if p < 0 {
        (0, -tdiv(v * bounciness, PERMILLE as int))
    } else if p > hi {
        (hi, -tdiv(v * bounciness, PERMILLE as int))
    } else {
        (p, v)
    }
}

/// One particle after a step of `dt` microseconds under the spring force
/// `(fx, fy)` and gravity, inside a viewport of `width` by `height`.
pub open spec fn advance(
    p: Particle,
    fx: int,
    fy: int,
    m: int,
    prm: BlobParams,
    dt: int,
    width: int,
    height: int,
) -> Particle {
    let l = new_velocity(p, fx, fy, m, prm, dt);
    let q = free_position(p, l, dt);
    let bx = bounce(q.0, l.0, width, prm.bounciness as int);
    let by = bounce(q.1, l.1, height, prm.bounciness as int);
    Particle { pos: Point { x: bx.0 as i64, y: by.0 as i64 }, vel: Point { x: bx.1 as i64, y: by.1 as i64 } }
}

/// A particle's velocity after the kick of the force `(fx, fy)` and
/// gravity, the damping and the soft speed limit.
pub open spec fn new_velocity(p: Particle, fx: int, fy: int, m: int, prm: BlobParams, dt: int) -> (int, int) {
    let vx = kicked_velocity(p.vel.x as int, fx, m, dt, prm.damping as int);
    let vy = kicked_velocity(p.vel.y as int, fy + m * prm.gravity, m, dt, prm.damping as int);
    (speed_limited(vx, vy, prm.max_speed as int), speed_limited(vy, vx, prm.max_speed as int))
}

/// Where a particle moving at velocity `l` gets to in `dt` microseconds,
/// before any wall stops it.
pub open spec fn free_position(p: Particle, l: (int, int), dt: int) -> (int, int) {
    (p.pos.x + tdiv(l.0 * dt, MICROS as int), p.pos.y + tdiv(l.1 * dt, MICROS as int))
}

/// The soft speed limit stays within `max` and is odd in the velocity.
pub proof fn lemma_speed_limited(v: int, w: int, max: int)
    requires
        max >= 1,
    ensures
        -max <= speed_limited(v, w, max) <= max,
        speed_limited(-v, -w, max) == -speed_limited(v, w, max),
{
    let t = v * v + w * w + max * max;
    assert(v * v >= 0 && w * w >= 0) by (nonlinear_arith);
    assert((-v) * (-v) == v * v && (-w) * (-w) == w * w) by (nonlinear_arith);
    let av = if v >= 0 { v } else { -v };
    assert(av * av == v * v) by (nonlinear_arith)
        requires
            av == (if v >= 0 { v } else { -v }),
    ;
    lemma_floor_sqrt_ge(av, t);
    lemma_floor_sqrt_ge(max, t);
    let q = floor_sqrt(t);
    assert(-max * q <= v * max <= max * q) by (nonlinear_arith)
        requires
            -q <= v <= q,
            max >= 1,
    ;
    lemma_tdiv_bound(v * max, q, max);
    assert((-v) * max == -(v * max)) by (nonlinear_arith);
    lemma_tdiv_odd(v * max, q);
}

/// The force kick, the damping and the saturation are odd: reversing
/// velocity and force reverses the result.
pub proof fn lemma_kicked_odd(v: int, f: int, m: int, dt: int, damping: int)
    requires
        m > 0,
    ensures
        kicked_velocity(-v, -f, m, dt, damping) == -kicked_velocity(v, f, m, dt, damping),
{
    lemma_tdiv_odd(f, m);
    let a = tdiv(f, m);
    assert((-a) * dt == -(a * dt)) by (nonlinear_arith);
    lemma_tdiv_odd(a * dt, MICROS as int);
    let k = kick(f, m, dt);
    assert(kick(-f, m, dt) == -k);
    assert((-v + -k) * damping == -((v + k) * damping)) by (nonlinear_arith);
    lemma_tdiv_odd((v + k) * damping, PERMILLE as int);
}

/// One velocity component after the force kick and the damping.
fn kick_velocity(v: i64, f: i128, m: i64, dt: u32, damping: i64) -> (r: i128)
    requires
        -VEL_LIMIT <= v <= VEL_LIMIT,
        -0x800_0000_0000_0000_0000_0000 <= f <= 0x800_0000_0000_0000_0000_0000,
        1 <= m <= MAX_MASS,
        dt <= MAX_DT,
        0 <= damping <= PERMILLE,
    ensures
        r == kicked_velocity(v as int, f as int, m as int, dt as int, damping as int),
        -VEL_GUARD <= r <= VEL_GUARD,
{
    let a = div_trunc(f, m as i128);
    proof {
        lemma_tdiv_bound(f as int, m as int, 0x800_0000_0000_0000_0000_0000);
    }
    assert(-0x8000_0000_0000_0000_0000_0000_0000 <= a * dt <= 0x8000_0000_0000_0000_0000_0000_0000)
        by (nonlinear_arith)
        requires
            -0x800_0000_0000_0000_0000_0000 <= a <= 0x800_0000_0000_0000_0000_0000,
            0 <= dt <= 0x10_0000,
    ;
    let ad: i128 = a * dt as i128;
    let kv = div_trunc(ad, MICROS);
    proof {
        lemma_tdiv_bound(ad as int, MICROS as int, 0x1000_0000_0000_0000_0000_0000);
    }
    let w: i128 = v as i128 + kv;
    assert(-0x100_0000_0000_0000_0000_0000_0000 <= w * damping <= 0x100_0000_0000_0000_0000_0000_0000)
        by (nonlinear_arith)
        requires
            -0x4000_0000_0000_0000_0000_0000 <= w <= 0x4000_0000_0000_0000_0000_0000,
            0 <= damping <= 1000,
    ;
    let wd: i128 = w * damping as i128;
    let d = div_trunc(wd, PERMILLE as i128);
    if d < -VEL_GUARD {
        -VEL_GUARD
    } else if d > VEL_GUARD {
        VEL_GUARD
    } else {
        d
    }
}

/// The soft speed limit, applied to both components of a velocity.
pub fn limit_speed(vx: i128, vy: i128, max: i64) -> (r: (i128, i128))
    requires
        -VEL_GUARD <= vx <= VEL_GUARD,
        -VEL_GUARD <= vy <= VEL_GUARD,
        1 <= max <= MAX_SPEED,
    ensures
        r.0 == speed_limited(vx as int, vy as int, max as int),
        r.1 == speed_limited(vy as int, vx as int, max as int),
        -max <= r.0 <= max,
        -max <= r.1 <= max,
{
    assert(vx * vx <= 0x100_0000_0000_0000_0000_0000_0000_0000) by (nonlinear_arith)
        requires
            -0x1000_0000_0000_0000 <= vx <= 0x1000_0000_0000_0000,
    ;
    assert(vy * vy <= 0x100_0000_0000_0000_0000_0000_0000_0000) by (nonlinear_arith)
        requires
            -0x1000_0000_0000_0000 <= vy <= 0x1000_0000_0000_0000,
    ;
    assert(max * max <= 0x1_0000_0000_0000_0000_0000) by (nonlinear_arith)
        requires
            1 <= max <= 0x100_0000_0000,
    ;
    assert(vx * vx >= 0 && vy * vy >= 0 && max * max >= 1) by (nonlinear_arith)
        requires
            max >= 1,
    ;
    let m: i128 = max as i128;
    let total: i128 = vx * vx + vy * vy + m * m;
    let q = isqrt(total as u128);
    assert(vx * vx + vy * vy + max * max == vy * vy + vx * vx + max * max);
    proof {
        if vx >= 0 {
            lemma_floor_sqrt_ge(vx as int, total as int);
        } else {
            assert((-vx) * (-vx) == vx * vx) by (nonlinear_arith);
            lemma_floor_sqrt_ge(-vx as int, total as int);
        }
        if vy >= 0 {
            lemma_floor_sqrt_ge(vy as int, total as int);
        } else {
            assert((-vy) * (-vy) == vy * vy) by (nonlinear_arith);
            lemma_floor_sqrt_ge(-vy as int, total as int);
        }
        lemma_floor_sqrt_ge(max as int, total as int);
    }
    let qq: i128 = q as i128;
    assert(-max * qq <= vx * max <= max * qq) by (nonlinear_arith)
        requires
            -qq <= vx <= qq,
            max >= 1,
    ;
    assert(-max * qq <= vy * max <= max * qq) by (nonlinear_arith)
        requires
            -qq <= vy <= qq,
            max >= 1,
    ;
    assert(-0x1000_0000_0000_0000_0000_0000_0000 <= vx * max <= 0x1000_0000_0000_0000_0000_0000_0000)
        by (nonlinear_arith)
        requires
            -0x1000_0000_0000_0000 <= vx <= 0x1000_0000_0000_0000,
            1 <= max <= 0x100_0000_0000,
    ;
    assert(-0x1000_0000_0000_0000_0000_0000_0000 <= vy * max <= 0x1000_0000_0000_0000_0000_0000_0000)
        by (nonlinear_arith)
        requires
            -0x1000_0000_0000_0000 <= vy <= 0x1000_0000_0000_0000,
            1 <= max <= 0x100_0000_0000,
    ;
    let rx = div_trunc(vx * m, qq);
    let ry = div_trunc(vy * m, qq);
    proof {
        lemma_tdiv_bound(vx * max, qq as int, max as int);
        lemma_tdiv_bound(vy * max, qq as int, max as int);
    }
    (rx, ry)
}

/// Puts a particle that has passed a wall at `0` or `hi` back on the wall,
/// with its velocity reversed and scaled by `bounciness` (parts per
/// thousand); leaves it as it is otherwise.
pub fn bounce_axis(pos: i64, vel: i64, hi: i64, bounciness: i64) -> (r: (i64, i64))
    requires
        0 <= hi,
        -MAX_SPEED <= vel <= MAX_SPEED,
        0 <= bounciness <= PERMILLE,
    ensures
        r.0 == bounce(pos as int, vel as int, hi as int, bounciness as int).0,
        r.1 == bounce(pos as int, vel as int, hi as int, bounciness as int).1,
        0 <= r.0 <= hi,
        vel >= 0 ==> -vel <= r.1 <= vel,
        vel < 0 ==> vel <= r.1 <= -vel,
{
    if pos < 0 || pos > hi {
        assert(-MAX_SPEED * PERMILLE <= vel * bounciness <= MAX_SPEED * PERMILLE) by (nonlinear_arith)
            requires
                -MAX_SPEED <= vel <= MAX_SPEED,
                0 <= bounciness <= PERMILLE,
        ;
        let scaled: i128 = vel as i128 * bounciness as i128;
        let back = div_trunc(scaled, PERMILLE as i128);
        proof {
            let mag: int = if vel >= 0 { vel as int } else { -vel };
            assert(-mag * PERMILLE <= vel * bounciness <= mag * PERMILLE) by (nonlinear_arith)
                requires
                    mag == (if vel >= 0 { vel as int } else { -vel }),
                    0 <= bounciness <= PERMILLE,
            ;
            lemma_tdiv_bound(scaled as int, PERMILLE as int, mag);
        }
        let wall: i64 = if pos < 0 {
            0
        } else {
            hi
        };
        (wall, -(back as i64))
    } else {
        (pos, vel)
    }
}

/// One particle after a step of `dt` microseconds under the spring force
/// `(fx, fy)` and gravity: semi-implicit Euler, damping, the soft speed
/// limit, then the walls of a `width` by `height` viewport.
pub fn advance_particle(
    p: Particle,
    fx: i128,
    fy: i128,
    m: i64,
    prm: &BlobParams,
    dt: u32,
    width: i64,
    height: i64,
) -> (r: Particle)
    requires
        coord_ok(p.pos, POS_LIMIT as int),
        coord_ok(p.vel, VEL_LIMIT as int),
        -FORCE_LIMIT <= fx <= FORCE_LIMIT,
        -FORCE_LIMIT <= fy <= FORCE_LIMIT,
        1 <= m <= MAX_MASS,
        prm.physics_ok(),
        dt <= MAX_DT,
        0 <= width <= POS_LIMIT,
        0 <= height <= POS_LIMIT,
    ensures
        r == advance(p, fx as int, fy as int, m as int, *prm, dt as int, width as int, height as int),
        0 <= r.pos.x <= width,
        0 <= r.pos.y <= height,
        -prm.max_speed <= r.vel.x <= prm.max_speed,
        -prm.max_speed <= r.vel.y <= prm.max_speed,
{
    assert(-MAX_MASS * MAX_GRAVITY <= m * prm.gravity <= MAX_MASS * MAX_GRAVITY) by (nonlinear_arith)
        requires
            1 <= m <= MAX_MASS,
            -MAX_GRAVITY <= prm.gravity <= MAX_GRAVITY,
    ;
    let gy: i128 = fy + m as i128 * prm.gravity as i128;
    let vx = kick_velocity(p.vel.x, fx, m, dt, prm.damping);
    let vy = kick_velocity(p.vel.y, gy, m, dt, prm.damping);
    let l = limit_speed(vx, vy, prm.max_speed);
    assert(-MAX_SPEED * MAX_DT <= l.0 * dt <= MAX_SPEED * MAX_DT) by (nonlinear_arith)
        requires
            -MAX_SPEED <= l.0 <= MAX_SPEED,
            0 <= dt <= MAX_DT,
    ;
    assert(-MAX_SPEED * MAX_DT <= l.1 * dt <= MAX_SPEED * MAX_DT) by (nonlinear_arith)
        requires
            -MAX_SPEED <= l.1 <= MAX_SPEED,
            0 <= dt <= MAX_DT,
    ;
    let sx = div_trunc(l.0 * dt as i128, MICROS);
    let sy = div_trunc(l.1 * dt as i128, MICROS);
    proof {
        lemma_tdiv_bound(l.0 * dt, MICROS as int, MAX_SPEED * MAX_DT);
        lemma_tdiv_bound(l.1 * dt, MICROS as int, MAX_SPEED * MAX_DT);
    }
    let nx: i64 = (p.pos.x as i128 + sx) as i64;
    let ny: i64 = (p.pos.y as i128 + sy) as i64;
    let bx = bounce_axis(nx, l.0 as i64, width, prm.bounciness);
    let by = bounce_axis(ny, l.1 as i64, height, prm.bounciness);
    Particle { pos: Point { x: bx.0, y: by.0 }, vel: Point { x: bx.1, y: by.1 } }
}

/// Division by a positive value, rounded away from zero.
pub open spec fn adiv(a: int, b: int) -> int {
    if a >= 0 {
        (a + b - 1) / b
    } else {
        -((-a + b - 1) / b)
    }
}

/// The push, along one axis, that moves particle `i` away from particle
/// `j`: half the overlap, projected on the axis, rounded away from zero.
pub open spec fn push_part(d: int, overlap: int, len: int) -> int {
    adiv(d * overlap, 2 * len)
}

/// Particles `i` and `j` pushed apart along the line that joins them, each
/// by half their overlap, when they are closer than `2 * r` without
/// coinciding; unchanged otherwise, and always when `r` is not positive.
pub open spec fn separate(ps: Seq<Particle>, i: int, j: int, r: int) -> Seq<Particle> {
    let pi = ps[i];
    let pj = ps[j];
    let dx = pi.pos.x - pj.pos.x;
    let dy = pi.pos.y - pj.pos.y;
    let d2 = sq_len(dx, dy);
    if r > 0 && 0 < d2 && d2 < (2 * r) * (2 * r) {
        let len = floor_sqrt(d2);
        let overlap = 2 * r - len;
        let sx = push_part(dx, overlap, len);
        let sy = push_part(dy, overlap, len);
        ps.update(
            i,
            Particle { pos: Point { x: (pi.pos.x + sx) as i64, y: (pi.pos.y + sy) as i64 }, vel: pi.vel },
        ).update(
            j,
            Particle { pos: Point { x: (pj.pos.x - sx) as i64, y: (pj.pos.y - sy) as i64 }, vel: pj.vel },
        )
    } else {
        ps
    }
}

/// The pairwise pass from pair `(i, j)` on, in the order `(0, 1), (0, 2),
/// ..., (1, 2), ...` over the first `n` particles.
pub open spec fn collide_from(ps: Seq<Particle>, r: int, n: int, i: int, j: int) -> Seq<Particle>
    decreases n - i, n - j,
{
    if i >= n || i < 0 {
        ps
    } else if j >= n {
        collide_from(ps, r, n, i + 1, i + 2)
    } else {
        collide_from(separate(ps, i, j, r), r, n, i, j + 1)
    }
}

/// Rounding away from zero overshoots the exact quotient by less than one.
proof fn lemma_adiv(a: int, b: int)
    requires
        b > 0,
    ensures
        a >= 0 ==> adiv(a, b) >= 0 && adiv(a, b) * b >= a && adiv(a, b) <= a / b + 1,
        a < 0 ==> adiv(a, b) <= 0 && adiv(a, b) * b <= a && adiv(a, b) >= -((-a) / b) - 1,
{
    if a >= 0 {
        let q = (a + b - 1) / b;
        assert(q >= 0 && q * b >= a && q <= a / b + 1) by (nonlinear_arith)
            requires
                q == (a + b - 1) / b,
                a >= 0,
                b > 0,
        ;
    } else {
        let n = -a;
        let q = (n + b - 1) / b;
        assert(q >= 0 && q * b >= n && q <= n / b + 1) by (nonlinear_arith)
            requires
                q == (n + b - 1) / b,
                n > 0,
                b > 0,
        ;
        assert((-q) * b == -(q * b)) by (nonlinear_arith);
    }
}

/// The push along one axis is no longer than `overlap / 2 + 1`, and pushing
/// both particles by it stretches that axis' gap at least in the ratio
/// `(len + overlap) / len`.
proof fn lemma_push_part(d: int, overlap: int, len: int)
    requires
        -len <= d <= len,
        len > 0,
        overlap > 0,
    ensures
        -(overlap / 2 + 1) <= push_part(d, overlap, len) <= overlap / 2 + 1,
        d >= 0 ==> (d + 2 * push_part(d, overlap, len)) * len >= d * (len + overlap) >= 0,
        d < 0 ==> (d + 2 * push_part(d, overlap, len)) * len <= d * (len + overlap) <= 0,
{
    let b = 2 * len;
    let a = d * overlap;
    let s = push_part(d, overlap, len);
    lemma_adiv(a, b);
    if d >= 0 {
        assert(a >= 0 && a <= overlap * len) by (nonlinear_arith)
            requires
                a == d * overlap,
                0 <= d <= len,
                overlap > 0,
        ;
        assert(a / b <= overlap / 2) by (nonlinear_arith)
            requires
                0 <= a <= overlap * len,
                b == 2 * len,
                len > 0,
                overlap > 0,
        ;
        assert((d + 2 * s) * len >= d * (len + overlap) >= 0) by (nonlinear_arith)
            requires
                s * b >= a,
                a == d * overlap,
                b == 2 * len,
                d >= 0,
                overlap > 0,
                len > 0,
        ;
    } else {
        assert(a < 0 && -a <= overlap * len) by (nonlinear_arith)
            requires
                a == d * overlap,
                -len <= d < 0,
                overlap > 0,
        ;
        assert((-a) / b <= overlap / 2) by (nonlinear_arith)
            requires
                0 <= -a <= overlap * len,
                b == 2 * len,
                len > 0,
                overlap > 0,
        ;
        assert((d + 2 * s) * len <= d * (len + overlap) <= 0) by (nonlinear_arith)
            requires
                s * b <= a,
                a == d * overlap,
                b == 2 * len,
                d < 0,
                overlap > 0,
                len > 0,
        ;
    }
}

/// Squaring keeps the order of the stretched gap: from
/// `|e| * len >= |d| * m` follows `e^2 * len^2 >= d^2 * m^2`.
proof fn lemma_stretch_square(d: int, e: int, len: int, m: int)
    requires
        d >= 0 ==> e * len >= d * m >= 0,
        d < 0 ==> e * len <= d * m <= 0,
    ensures
        (e * e) * (len * len) >= (d * d) * (m * m),
{
    if d >= 0 {
        let x = e * len;
        let y = d * m;
        assert(x * x >= y * y) by (nonlinear_arith)
            requires
                x >= y >= 0,
        ;
        assert(x * x == (e * e) * (len * len)) by (nonlinear_arith)
            requires
                x == e * len,
        ;
        assert(y * y == (d * d) * (m * m)) by (nonlinear_arith)
            requires
                y == d * m,
        ;
    } else {
        let x = e * len;
        let y = d * m;
        assert(x * x >= y * y) by (nonlinear_arith)
            requires
                x <= y <= 0,
        ;
        assert(x * x == (e * e) * (len * len)) by (nonlinear_arith)
            requires
                x == e * len,
        ;
        assert(y * y == (d * d) * (m * m)) by (nonlinear_arith)
            requires
                y == d * m,
        ;
    }
}

/// Two particles that do not coincide end at least `2 * r` apart once
/// `separate` has pushed them.
pub proof fn lemma_separate_apart(ps: Seq<Particle>, i: int, j: int, r: int)
    requires
        0 <= i < ps.len(),
        0 <= j < ps.len(),
        i != j,
        0 <= r <= crate::params::MAX_PARTICLE_RADIUS,
        coord_ok(ps[i].pos, PASS_LIMIT as int),
        coord_ok(ps[j].pos, PASS_LIMIT as int),
        sq_dist(ps[i].pos, ps[j].pos) > 0,
    ensures
        sq_dist(separate(ps, i, j, r)[i].pos, separate(ps, i, j, r)[j].pos) >= (2 * r) * (2 * r),
{
    let pi = ps[i];
    let pj = ps[j];
    let dx = pi.pos.x - pj.pos.x;
    let dy = pi.pos.y - pj.pos.y;
    let d2 = sq_len(dx, dy);
    let m = 2 * r;
    if d2 < m * m {
        lemma_sq_len_nonneg(dx, dy);
        lemma_floor_sqrt_exists(d2);
        let l = floor_sqrt(d2);
        if l >= m {
            lemma_square_le(m, l);
        }
        if l == 0 {
            assert(d2 < 1) by (nonlinear_arith)
                requires
                    l == 0,
                    d2 < (l + 1) * (l + 1),
            ;
        }
        lemma_component_le_len(dx, dy, l);
        assert(sq_len(dy, dx) == d2);
        lemma_component_le_len(dy, dx, l);
        let overlap = m - l;
        let sx = push_part(dx, overlap, l);
        let sy = push_part(dy, overlap, l);
        lemma_push_part(dx, overlap, l);
        lemma_push_part(dy, overlap, l);
        let ex = dx + 2 * sx;
        let ey = dy + 2 * sy;
        let q = separate(ps, i, j, r);
        assert(q[i].pos.x - q[j].pos.x == ex);
        assert(q[i].pos.y - q[j].pos.y == ey);
        lemma_stretch_square(dx, ex, l, m);
        lemma_stretch_square(dy, ey, l, m);
        let ll = l * l;
        assert(ll > 0) by (nonlinear_arith)
            requires
                ll == l * l,
                l > 0,
        ;
        assert((ex * ex + ey * ey) * ll >= d2 * (m * m)) by (nonlinear_arith)
            requires
                (ex * ex) * ll >= (dx * dx) * (m * m),
                (ey * ey) * ll >= (dy * dy) * (m * m),
                d2 == dx * dx + dy * dy,
        ;
        assert(d2 * (m * m) >= ll * (m * m)) by (nonlinear_arith)
            requires
                d2 >= ll,
        ;
        assert(ex * ex + ey * ey >= m * m) by (nonlinear_arith)
            requires
                (ex * ex + ey * ey) * ll >= ll * (m * m),
                ll > 0,
        ;
    }
}

/// For two particles that do not coincide, the pairwise pass leaves them at
/// least `2 * r` apart.
pub proof fn lemma_pass_separates_two(ps: Seq<Particle>, r: int)
    requires
        ps.len() == 2,
        0 <= r <= crate::params::MAX_PARTICLE_RADIUS,
        coord_ok(ps[0].pos, PASS_LIMIT as int),
        coord_ok(ps[1].pos, PASS_LIMIT as int),
        sq_dist(ps[0].pos, ps[1].pos) > 0,
    ensures
        sq_dist(collide_from(ps, r, 2, 0, 1)[0].pos, collide_from(ps, r, 2, 0, 1)[1].pos) >= (2 * r) * (2
            * r),
{
    let q = separate(ps, 0, 1, r);
    lemma_separate_apart(ps, 0, 1, r);
    assert(q.len() == 2);
    assert(collide_from(q, r, 2, 2, 3) == q);
    assert(collide_from(q, r, 2, 1, 2) == q);
    assert(collide_from(q, r, 2, 0, 2) == collide_from(q, r, 2, 1, 2));
    assert(collide_from(ps, r, 2, 0, 1) == collide_from(q, r, 2, 0, 2));
}

/// Bound on coordinates during the pairwise pass.
pub const PASS_LIMIT: i128 = 0x1000_0000_0000_0000;

/// Pushes particles `i` and `j` apart, each by half their overlap, when
/// they are closer than `2 * r` without coinciding. A pair that was pushed
/// ends at least `2 * r` apart.
pub fn separate_pair(ps: &mut Vec<Particle>, i: usize, j: usize, r: i64)
    requires
        i < old(ps).len(),
        j < old(ps).len(),
        i != j,
        -crate::params::MAX_PARTICLE_RADIUS <= r <= crate::params::MAX_PARTICLE_RADIUS,
        coord_ok(old(ps)[i as int].pos, PASS_LIMIT as int),
        coord_ok(old(ps)[j as int].pos, PASS_LIMIT as int),
    ensures
        final(ps)@ == separate(old(ps)@, i as int, j as int, r as int),
        r >= 0 && sq_dist(old(ps)[i as int].pos, old(ps)[j as int].pos) > 0 ==> sq_dist(
            final(ps)[i as int].pos,
            final(ps)[j as int].pos,
        ) >= (2 * r) * (2 * r),
        forall|k: int|
            0 <= k < final(ps).len() ==> {
                &&& -(r + 1) <= #[trigger] final(ps)[k].pos.x - old(ps)[k].pos.x <= r + 1
                &&& -(r + 1) <= final(ps)[k].pos.y - old(ps)[k].pos.y <= r + 1
            } || final(ps)[k] == old(ps)[k],
{
    let pi = ps[i];
    let pj = ps[j];
    let dx: i128 = pi.pos.x as i128 - pj.pos.x as i128;
    let dy: i128 = pi.pos.y as i128 - pj.pos.y as i128;
    assert(dx * dx <= 0x400_0000_0000_0000_0000_0000_0000_0000) by (nonlinear_arith)
        requires
            -0x2000_0000_0000_0000 <= dx <= 0x2000_0000_0000_0000,
    ;
    assert(dy * dy <= 0x400_0000_0000_0000_0000_0000_0000_0000) by (nonlinear_arith)
        requires
            -0x2000_0000_0000_0000 <= dy <= 0x2000_0000_0000_0000,
    ;
    proof {
        lemma_sq_len_nonneg(dx as int, dy as int);
    }
    let d2: i128 = dx * dx + dy * dy;
    let min: i128 = 2 * r as i128;
    assert(min * min <= 0x40_0000_0000) by (nonlinear_arith)
        requires
            -0x8_0000 <= min <= 0x8_0000,
    ;
    assert((2 * r) * (2 * r) == min * min);
    if r == 0 {
        assert(min * min == 0) by (nonlinear_arith)
            requires
                min == 0,
        ;
    }
    if r > 0 && 0 < d2 && d2 < min * min {
        let len = isqrt(d2 as u128);
        let l: i128 = len as i128;
        proof {
            assert(is_floor_sqrt(l as int, d2 as int));
            if l >= min {
                lemma_square_le(min as int, l as int);
            }
            if l == 0 {
                assert(d2 < 1) by (nonlinear_arith)
                    requires
                        l == 0,
                        d2 < (l + 1) * (l + 1),
                ;
            }
            lemma_component_le_len(dx as int, dy as int, l as int);
            assert(sq_len(dy as int, dx as int) == d2);
            lemma_component_le_len(dy as int, dx as int, l as int);
        }
        let overlap: i128 = min - l;
        assert(-0x4000_0000_0000_0000_0000_0000 <= dx * overlap <= 0x4000_0000_0000_0000_0000_0000)
            by (nonlinear_arith)
            requires
                -0x2000_0000_0000_0000 <= dx <= 0x2000_0000_0000_0000,
                0 < overlap <= 0x8_0000,
        ;
        assert(-0x4000_0000_0000_0000_0000_0000 <= dy * overlap <= 0x4000_0000_0000_0000_0000_0000)
            by (nonlinear_arith)
            requires
                -0x2000_0000_0000_0000 <= dy <= 0x2000_0000_0000_0000,
                0 < overlap <= 0x8_0000,
        ;
        let sx = div_away(dx * overlap, 2 * l);
        let sy = div_away(dy * overlap, 2 * l);
        proof {
            lemma_push_part(dx as int, overlap as int, l as int);
            lemma_push_part(dy as int, overlap as int, l as int);
            lemma_separate_apart(ps@, i as int, j as int, r as int);
        }
        let ni = Particle {
            pos: Point { x: (pi.pos.x as i128 + sx) as i64, y: (pi.pos.y as i128 + sy) as i64 },
            vel: pi.vel,
        };
        let nj = Particle {
            pos: Point { x: (pj.pos.x as i128 - sx) as i64, y: (pj.pos.y as i128 - sy) as i64 },
            vel: pj.vel,
        };
        ps.set(i, ni);
        ps.set(j, nj);
    }
}

/// Division of a signed value by a positive one, rounded away from zero.
fn div_away(a: i128, b: i128) -> (q: i128)
    requires
        0 < b <= 0x10_0000,
        -0x4000_0000_0000_0000_0000_0000 <= a <= 0x4000_0000_0000_0000_0000_0000,
    ensures
        q == adiv(a as int, b as int),
{
    if a >= 0 {
        (a + b - 1) / b
    } else {
        let n: i128 = -a;
        -((n + b - 1) / b)
    }
}

/// Without a positive radius the pairwise pass moves nothing.
proof fn lemma_collide_inert(ps: Seq<Particle>, r: int, n: int, i: int, j: int)
    requires
        r <= 0,
        n == ps.len(),
    ensures
        collide_from(ps, r, n, i, j) == ps,
    decreases n - i, n - j,
{
    if i >= n || i < 0 {
    } else if j >= n {
        lemma_collide_inert(ps, r, n, i + 1, i + 2);
    } else {
        assert(separate(ps, i, j, r) == ps);
        lemma_collide_inert(ps, r, n, i, j + 1);
    }
}

/// Runs the pairwise pass over all the particles: every pair `(i, j)` with
/// `i < j`, in order, goes through `separate_pair`.
pub fn resolve_collisions(ps: &mut Vec<Particle>, r: i64)
    requires
        -crate::params::MAX_PARTICLE_RADIUS <= r <= crate::params::MAX_PARTICLE_RADIUS,
        old(ps).len() <= MAX_PARTICLES,
        forall|k: int| 0 <= k < old(ps).len() ==> coord_ok(#[trigger] old(ps)[k].pos, POS_LIMIT as int),
    ensures
        final(ps)@ == collide_from(old(ps)@, r as int, old(ps).len() as int, 0, 1),
{
    let n = ps.len();
    if r <= 0 {
        proof {
            lemma_collide_inert(ps@, r as int, n as int, 0, 1);
        }
        return;
    }
    let ghost goal = collide_from(ps@, r as int, n as int, 0, 1);
    let ghost mut t: int = 0;
    let mut i: usize = 0;
    while i < n
        invariant
            0 <= i <= n,
            n == ps.len(),
            n <= MAX_PARTICLES,
            0 <= r <= crate::params::MAX_PARTICLE_RADIUS,
            collide_from(ps@, r as int, n as int, i as int, i + 1) == goal,
            0 <= t <= i * n,
            forall|k: int|
                0 <= k < n ==> coord_ok(#[trigger] ps[k].pos, POS_LIMIT + t * (r + 1)),
        decreases n - i,
    {
        let mut j: usize = i + 1;
        while j < n
            invariant
                0 <= i < n,
                i + 1 <= j <= n,
                n == ps.len(),
                n <= MAX_PARTICLES,
                0 <= r <= crate::params::MAX_PARTICLE_RADIUS,
                collide_from(ps@, r as int, n as int, i as int, j as int) == goal,
                0 <= t <= i * n + (j - i - 1),
                forall|k: int|
                    0 <= k < n ==> coord_ok(#[trigger] ps[k].pos, POS_LIMIT + t * (r + 1)),
            decreases n - j,
        {
            proof {
                assert(t + 1 <= n * n) by (nonlinear_arith)
                    requires
                        t <= i * n + (j - i - 1),
                        i < n,
                        j < n,
                ;
                assert(n * n <= 0x100_0000_0000) by (nonlinear_arith)
                    requires
                        n <= 0x10_0000,
                ;
                assert((t + 1) * (r + 1) <= 0x100_0000_0000 * 0x4_0001) by (nonlinear_arith)
                    requires
                        0 <= t + 1 <= 0x100_0000_0000,
                        0 <= r + 1 <= 0x4_0001,
                ;
                assert((t + 1) * (r + 1) == t * (r + 1) + (r + 1)) by (nonlinear_arith);
                assert(t * (r + 1) >= 0) by (nonlinear_arith)
                    requires
                        t >= 0,
                        r >= 0,
                ;
                assert(coord_ok(ps[i as int].pos, POS_LIMIT + t * (r + 1)));
                assert(coord_ok(ps[j as int].pos, POS_LIMIT + t * (r + 1)));
            }
            let ghost before = ps@;
            separate_pair(ps, i, j, r);
            proof {
                assert(ps@ == separate(before, i as int, j as int, r as int));
                t = t + 1;
                assert forall|k: int| 0 <= k < n implies coord_ok(
                    #[trigger] ps[k].pos,
                    POS_LIMIT + t * (r + 1),
                ) by {
                    assert(coord_ok(before[k].pos, POS_LIMIT + (t - 1) * (r + 1)));
                    assert((t - 1) * (r + 1) + (r + 1) == t * (r + 1)) by (nonlinear_arith);
                }
            }
            j = j + 1;
        }
        proof {
            assert(t <= (i + 1) * n) by (nonlinear_arith)
                requires
                    t <= i * n + (n - i - 1),
                    i < n,
            ;
        }
        i = i + 1;
    }
}

/// A particle moved back inside a `width` by `height` viewport, velocity
/// kept.
pub open spec fn contained(p: Particle, width: int, height: int) -> Particle {
    Particle {
        pos: Point { x: clamp(p.pos.x as int, 0, width) as i64, y: clamp(p.pos.y as int, 0, height) as i64 },
        vel: p.vel,
    }
}

/// Moves every particle back inside a `width` by `height` viewport.
pub fn contain(ps: &mut Vec<Particle>, width: i64, height: i64)
    requires
        0 <= width,
        0 <= height,
    ensures
        final(ps).len() == old(ps).len(),
        forall|k: int|
            0 <= k < final(ps).len() ==> #[trigger] final(ps)[k] == contained(
                old(ps)[k],
                width as int,
                height as int,
            ),
{
    let n = ps.len();
    let mut k: usize = 0;
    while k < n
        invariant
            0 <= k <= n,
            n == ps.len(),
            n == old(ps).len(),
            0 <= width,
            0 <= height,
            forall|m: int| 0 <= m < k ==> #[trigger] ps[m] == contained(old(ps)[m], width as int, height as int),
            forall|m: int| k <= m < n ==> #[trigger] ps[m] == old(ps)[m],
        decreases n - k,
    {
        let p = ps[k];
        let x = if p.pos.x < 0 {
            0
        } else if p.pos.x > width {
            width
        } else {
            p.pos.x
        };
        let y = if p.pos.y < 0 {
            0
        } else if p.pos.y > height {
            height
        } else {
            p.pos.y
        };
        ps.set(k, Particle { pos: Point { x, y }, vel: p.vel });
        k = k + 1;
    }
}
} // verus!
