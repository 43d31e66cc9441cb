//! The blob: its particles, springs and outline, and the per-frame step.
use vstd::prelude::*;
use crate::geometry::{Point, tdiv, sq_dist, sq_len, div_trunc, lemma_sq_len_nonneg};
use crate::params::{BlobParams, MAX_DT, MAX_MASS};
use crate::mesh::{shape_ok, fits, filled_radius, ring_size, ring_point, place_particles, lattice_offsets,
    sample_reach,
    lattice_point, in_disc};
use crate::topology::{connected, no_duplicates, rest_exact, build_springs, joined, knn_linked, link_near,
    nearest_link, ring_link, lower_link,
    link_below, lemma_extends_joined};
use crate::physics::{
    Particle, Spring, springs_valid, particles_bounded, spring_force, advance, collide_from,
    contained, spring_forces, advance_particle, resolve_collisions, contain, coord_ok, POS_LIMIT,
    new_velocity, free_position, kicked_velocity, total_spring_force, lemma_spring_forces_cancel,
    lemma_kicked_odd, lemma_speed_limited,
    VEL_LIMIT, MAX_PARTICLES, MAX_SPRINGS, FORCE_LIMIT,
};

verus! {

/// The mass of each of `n` particles sharing a blob's mass `mass`: the even
/// share, at least one and at most `MAX_MASS`.
pub open spec fn share_mass(mass: int, n: int) -> int {
    let q = if mass > 0 && n > 0 { mass / n } else { 0 };
    if q < 1 {
        1
    } else if q > MAX_MASS {
        MAX_MASS as int
    } else {
        q
    }
}

/// The mass of each of `n` particles sharing the mass `mass`.
fn particle_share(mass: i64, n: usize) -> (r: i64)
    ensures
        r == share_mass(mass as int, n as int),
{
    let q: i64 = if mass > 0 && n > 0 {
        if n as u64 > mass as u64 {
            0
        } else {
            mass / (n as i64)
        }
    } else {
        0
    };
    proof {
        if mass > 0 && n > 0 && n > mass {
            assert((mass as int) / (n as int) == 0) by (nonlinear_arith)
                requires
                    0 < mass < n,
            ;
        }
    }
    if q < 1 {
        1
    } else if q > MAX_MASS {
        MAX_MASS
    } else {
        q
    }
}

/// The index of the particle among `0 .. limit` nearest to `origin`, the
/// first such.
fn nearest_to(ps: &Vec<Particle>, limit: usize, origin: Point) -> (r: usize)
    requires
        1 <= limit <= ps.len(),
        particles_bounded(ps@),
        coord_ok(origin, POS_LIMIT as int),
    ensures
        r < limit,
        forall|k: int| 0 <= k < limit ==> sq_dist(ps[r as int].pos, origin) <= sq_dist(#[trigger] ps[k].pos, origin),
        forall|k: int| 0 <= k < r ==> sq_dist(ps[r as int].pos, origin) < sq_dist(#[trigger] ps[k].pos, origin),
{
    let mut best: usize = 0;
    let mut best_d: i128 = dist2_to(ps, 0, origin);
    let mut k: usize = 1;
    while k < limit
        invariant
            1 <= k <= limit,
            limit <= ps.len(),
            best < k,
            particles_bounded(ps@),
            coord_ok(origin, POS_LIMIT as int),
            best_d == sq_dist(ps[best as int].pos, origin),
            forall|m: int| 0 <= m < k ==> best_d <= sq_dist(#[trigger] ps[m].pos, origin),
            forall|m: int| 0 <= m < best ==> best_d < sq_dist(#[trigger] ps[m].pos, origin),
        decreases limit - k,
    {
        let d = dist2_to(ps, k, origin);
        if d < best_d {
            best = k;
            best_d = d;
        }
        k = k + 1;
    }
    best
}

/// Squared distance from particle `k` to `origin`.
fn dist2_to(ps: &Vec<Particle>, k: usize, origin: Point) -> (r: i128)
    requires
        k < ps.len(),
        particles_bounded(ps@),
        coord_ok(origin, POS_LIMIT as int),
    ensures
        r == sq_dist(ps[k as int].pos, origin),
{
    let p = ps[k].pos;
    assert(coord_ok(ps@[k as int].pos, POS_LIMIT as int));
    let dx: i128 = p.x as i128 - origin.x as i128;
    let dy: i128 = p.y as i128 - origin.y as i128;
    assert(0 <= dx * dx <= 0x1_0000_0000_0000_0000) by (nonlinear_arith)
        requires
            -0x1_0000_0000 <= dx <= 0x1_0000_0000,
    ;
    assert(0 <= dy * dy <= 0x1_0000_0000_0000_0000) by (nonlinear_arith)
        requires
            -0x1_0000_0000 <= dy <= 0x1_0000_0000,
    ;
    dx * dx + dy * dy
}

/// A deformable blob: particles joined by springs, with the particles whose
/// positions trace its outline, in order around it.
pub struct Blob {
    pub particles: Vec<Particle>,
    pub springs: Vec<Spring>,
    pub outline_particles_indices: Vec<usize>,
    /// The particle nearest the blob's centre when it was built: a quick
    /// stand-in for its centre of mass.
    pub center_particle_index: usize,
    pub params: BlobParams,
    /// The mass of each particle.
    pub particle_mass: i64,
}

impl Blob {
    /// The blob's invariant: springs and outline refer to particles that
    /// exist, and every quantity stays within the stepper's limits.
    pub open spec fn wf(&self) -> bool {
        &&& self.particles.len() <= MAX_PARTICLES
        &&& self.springs.len() <= MAX_SPRINGS
        &&& springs_valid(self.springs@, self.particles.len() as int)
        &&& particles_bounded(self.particles@)
        &&& self.params.physics_ok()
        &&& 1 <= self.particle_mass <= MAX_MASS
        &&& forall|k: int|
            0 <= k < self.outline_particles_indices.len()
                ==> #[trigger] self.outline_particles_indices[k] < self.particles.len()
        &&& (self.particles.len() > 0 ==> self.center_particle_index < self.particles.len())
    }

    /// The particles after forces, integration and wall bounces, before the
    /// pairwise overlap pass.
    pub open spec fn advanced(&self, dt: int, width: int, height: int) -> Seq<Particle> {
        let ps = self.particles@;
        let c = self.springs.len() as int;
        Seq::new(
            ps.len(),
            |k: int|
                advance(
                    ps[k],
                    spring_force(ps, self.springs@, self.params.stiffness as int, c, k).0,
                    spring_force(ps, self.springs@, self.params.stiffness as int, c, k).1,
                    self.particle_mass as int,
                    self.params,
                    dt,
                    width,
                    height,
                ),
        )
    }

    /// The particles after one step of `dt` microseconds in a `width` by
    /// `height` viewport: forces and integration, wall bounces, the pairwise
    /// overlap pass, then the viewport's bounds.
    pub open spec fn stepped(&self, dt: int, width: int, height: int) -> Seq<Particle> {
        let n = self.particles.len() as int;
        let moved = self.advanced(dt, width, height);
        let pushed = collide_from(moved, self.params.particle_radius as int, n, 0, 1);
        Seq::new(n as nat, |k: int| contained(pushed[k], width, height))
    }

    /// Advances the blob by `dt` microseconds inside a `width` by `height`
    /// viewport. Springs, outline and parameters are kept; every particle
    /// ends inside the viewport.
    pub fn update(&mut self, dt: u32, width: i64, height: i64)
        requires
            old(self).wf(),
            dt <= MAX_DT,
            0 <= width <= POS_LIMIT,
            0 <= height <= POS_LIMIT,
        ensures
            final(self).wf(),
            final(self).particles@ == old(self).stepped(dt as int, width as int, height as int),
            final(self).springs@ == old(self).springs@,
            final(self).outline_particles_indices@ == old(self).outline_particles_indices@,
            final(self).center_particle_index == old(self).center_particle_index,
            final(self).params == old(self).params,
            final(self).particle_mass == old(self).particle_mass,
            forall|k: int|
                0 <= k < final(self).particles.len() ==> {
                    &&& 0 <= #[trigger] final(self).particles[k].pos.x <= width
                    &&& 0 <= final(self).particles[k].pos.y <= height
                },
    {
        let n = self.particles.len();
        let k_s = self.params.stiffness;
        let forces = spring_forces(&self.particles, &self.springs, k_s);
        let ghost ps0 = self.particles@;
        let ghost want = self.stepped(dt as int, width as int, height as int);
        let ghost moved = self.advanced(dt as int, width as int, height as int);
        let mut next: Vec<Particle> = Vec::new();
        let mut k: usize = 0;
        while k < n
            invariant
                0 <= k <= n,
                n == self.particles.len(),
                self.particles@ == ps0,
                old(self).wf(),
                *self == *old(self),
                k_s == self.params.stiffness,
                dt <= MAX_DT,
                0 <= width <= POS_LIMIT,
                0 <= height <= POS_LIMIT,
                forces.0.len() == n,
                forces.1.len() == n,
                forall|i: int|
                    0 <= i < n ==> {
                        &&& #[trigger] forces.0[i] == spring_force(ps0, self.springs@, k_s as int, self.springs.len() as int, i).0
                        &&& forces.1[i] == spring_force(ps0, self.springs@, k_s as int, self.springs.len() as int, i).1
                    },
                forall|i: int|
                    0 <= i < n ==> -FORCE_LIMIT <= #[trigger] forces.0[i] <= FORCE_LIMIT && -FORCE_LIMIT
                        <= forces.1[i] <= FORCE_LIMIT,
                next.len() == k,
                moved == self.advanced(dt as int, width as int, height as int),
                moved.len() == n,
                forall|i: int| 0 <= i < k ==> #[trigger] next[i] == moved[i],
                forall|i: int|
                    0 <= i < k ==> {
                        &&& 0 <= #[trigger] next[i].pos.x <= width
                        &&& 0 <= next[i].pos.y <= height
                        &&& coord_ok(next[i].vel, VEL_LIMIT as int)
                    },
            decreases n - k,
        {
            let p = self.particles[k];
            assert(coord_ok(ps0[k as int].pos, POS_LIMIT as int));
            assert(coord_ok(p.vel, VEL_LIMIT as int));
            let q = advance_particle(
                p,
                forces.0[k],
                forces.1[k],
                self.particle_mass,
                &self.params,
                dt,
                width,
                height,
            );
            assert(q == moved[k as int]);
            next.push(q);
            k = k + 1;
        }
        proof {
            assert(next@ =~= moved);
            assert forall|i: int| 0 <= i < n implies coord_ok(#[trigger] moved[i].vel, VEL_LIMIT as int) by {
                assert(next[i] == moved[i]);
                assert(0 <= next[i].pos.x <= width);
            }
            assert forall|i: int| 0 <= i < next.len() implies coord_ok(#[trigger] next@[i].pos, POS_LIMIT as int) by {
                assert(0 <= next[i].pos.x <= width);
            }
        }
        resolve_collisions(&mut next, self.params.particle_radius);
        let ghost pushed = next@;
        contain(&mut next, width, height);
        proof {
            if n > 0 {
                lemma_collide_keeps_velocity(moved, self.params.particle_radius as int, n as int, 0, 1, 0);
            }
            assert(pushed.len() == n);
            assert(next.len() == n);
            assert forall|i: int| 0 <= i < n implies #[trigger] next@[i] == want[i] by {
                assert(next[i] == contained(pushed[i], width as int, height as int));
            }
            assert(next@ =~= want);
        }
        self.particles = next;
        proof {
            assert forall|i: int| 0 <= i < self.particles.len() implies coord_ok(
                #[trigger] self.particles[i].pos,
                POS_LIMIT as int,
            ) && coord_ok(self.particles[i].vel, VEL_LIMIT as int) by {
                assert(self.particles[i] == contained(pushed[i], width as int, height as int));
                assert(pushed[i].vel == moved[i].vel) by {
                    lemma_collide_keeps_velocity(moved, self.params.particle_radius as int, n as int, 0, 1, i);
                }
            }
        }
    }
}

/// Points at squared distance zero coincide.
proof fn lemma_sq_dist_zero(p: Point, q: Point)
    requires
        sq_dist(p, q) == 0,
    ensures
        p == q,
{
    let dx = p.x - q.x;
    let dy = p.y - q.y;
    assert(dx == 0 && dy == 0) by (nonlinear_arith)
        requires
            dx * dx + dy * dy == 0,
    ;
}

/// The pairwise pass moves particles only: velocities stay as they were.
proof fn lemma_collide_keeps_velocity(ps: Seq<Particle>, r: int, n: int, i: int, j: int, k: int)
    requires
        n == ps.len(),
        0 <= k < n,
        0 <= i,
        i < j,
    ensures
        collide_from(ps, r, n, i, j).len() == n,
        collide_from(ps, r, n, i, j)[k].vel == ps[k].vel,
    decreases n - i, n - j,
{
    if i >= n {
    } else if j >= n {
        lemma_collide_keeps_velocity(ps, r, n, i + 1, i + 2, k);
    } else {
        let s = crate::physics::separate(ps, i, j, r);
        assert(s.len() == n);
        assert(s[k].vel == ps[k].vel);
        lemma_collide_keeps_velocity(s, r, n, i, j + 1, k);
    }
}


impl Blob {
    /// Builds a blob about `origin`: Poisson-disk packing of the disc, no
    /// two inside particles closer than two particle radii, a ring of
    /// outline particles around it, all at rest, joined by springs whose
    /// rest lengths are their distances now: each particle to its nearest
    /// inside particles (six from the outline, eight from inside), each
    /// outline particle to the next, and each particle to one of lower
    /// index where none joined them yet. The spring graph is connected and
    /// joins no pair twice; the centre particle is the inside particle
    /// nearest `origin`. The packing is random; `seed` fixes it.
    pub fn new(origin: Point, params: BlobParams, seed: u64) -> (b: Blob)
        requires
            params.physics_ok(),
            shape_ok(params),
            fits(origin, params),
        ensures
            b.wf(),
            b.params == params,
            b.particles.len() >= 1,
            b.particle_mass == share_mass(params.mass as int, b.particles.len() as int),
            connected(b.springs@, b.particles.len() as int),
            forall|i: int|
                0 <= i < b.particles.len() ==> #[trigger] knn_linked(
                    b.springs@,
                    b.particles@,
                    i,
                    b.particles.len() - b.outline_particles_indices.len(),
                ),
            forall|k: int|
                0 <= k < b.springs.len() ==> nearest_link(
                    #[trigger] b.springs@[k],
                    b.particles@,
                    b.particles.len() - b.outline_particles_indices.len(),
                ) || ring_link(
                    b.springs@[k],
                    b.particles.len() - b.outline_particles_indices.len(),
                    b.particles.len() as int,
                ) || lower_link(b.springs@[k], b.particles@),
            no_duplicates(b.springs@),
            rest_exact(b.springs@, b.particles@),
            b.outline_particles_indices.len() == ring_size(params),
            forall|t: int|
                0 <= t < b.outline_particles_indices.len() ==> {
                    let p = (#[trigger] b.particles[b.particles.len() - b.outline_particles_indices.len() + t]).pos;
                    let q = ring_point(params.radius, ring_size(params), t);
                    p.x == origin.x + q.x && p.y == origin.y + q.y
                },
            b.outline_particles_indices.len() >= 2 ==> forall|t: int|
                0 <= t < b.outline_particles_indices.len() ==> #[trigger] joined(
                    b.springs@,
                    b.outline_particles_indices[t] as int,
                    b.outline_particles_indices[(t + 1) % (b.outline_particles_indices.len() as int)] as int,
                ),
            forall|t: int|
                0 <= t < b.outline_particles_indices.len() ==> #[trigger] b.outline_particles_indices[t]
                    == b.particles.len() - b.outline_particles_indices.len() + t,
            forall|k: int|
                0 <= k < b.particles.len() ==> (#[trigger] b.particles[k]).vel == (Point { x: 0, y: 0 })
                    && sq_dist(b.particles[k].pos, origin) <= filled_radius(params) * filled_radius(params),
            forall|m1: int, m2: int|
                0 <= m1 < m2 < b.particles.len() - b.outline_particles_indices.len() ==> sq_dist(
                    #[trigger] b.particles[m1].pos,
                    #[trigger] b.particles[m2].pos,
                ) >= 4 * params.particle_radius * params.particle_radius,
            b.center_particle_index < b.particles.len() - b.outline_particles_indices.len(),
            b.particles[b.center_particle_index as int].pos == origin,
            forall|k: int|
                0 <= k < b.particles.len() ==> sq_dist(b.particles[b.center_particle_index as int].pos, origin)
                    <= sq_dist(#[trigger] b.particles[k].pos, origin),
            forall|k: int|
                0 <= k < b.particles.len() - b.outline_particles_indices.len() ==> (#[trigger] b.particles[k]).pos
                    == origin || (sample_reach(params.radius as int, params.particle_radius as int) >= 0
                    && sq_dist(b.particles[k].pos, origin) <= sample_reach(
                    params.radius as int,
                    params.particle_radius as int,
                ) * sample_reach(params.radius as int, params.particle_radius as int)),
            params.particle_radius > 0 && params.radius >= 4 * params.particle_radius + 3
                ==> b.particles.len() - b.outline_particles_indices.len() >= 2,
    {
        let (particles, interior) = place_particles(origin, &params, seed);
        let n = particles.len();
        let springs = build_springs(&particles, interior);
        let mut outline: Vec<usize> = Vec::new();
        let mut t: usize = interior;
        while t < n
            invariant
                interior <= t <= n,
                outline.len() == t - interior,
                forall|m: int| 0 <= m < outline.len() ==> #[trigger] outline[m] == interior + m,
            decreases n - t,
        {
            outline.push(t);
            t = t + 1;
        }
        let center = nearest_to(&particles, interior, origin);
        proof {
            let w = choose|w: int| 0 <= w < interior && (#[trigger] particles@[w]).pos == origin;
            assert(sq_dist(particles@[w].pos, origin) == 0);
            let p = particles@[center as int].pos;
            lemma_sq_len_nonneg(p.x - origin.x, p.y - origin.y);
            assert(sq_dist(p, origin) == 0);
            lemma_sq_dist_zero(p, origin);
            assert forall|k: int| 0 <= k < n implies sq_dist(particles@[center as int].pos, origin) <= sq_dist(
                #[trigger] particles@[k].pos,
                origin,
            ) by {
                let q = particles@[k].pos;
                lemma_sq_len_nonneg(q.x - origin.x, q.y - origin.y);
            }
        }
        let mass = particle_share(params.mass, n);
        Blob {
            particles,
            springs,
            outline_particles_indices: outline,
            center_particle_index: center,
            params,
            particle_mass: mass,
        }
    }

    /// Builds a blob about `origin` on a square lattice: a particle, at
    /// rest, at each point of the lattice of step `spacing` that lies in the
    /// disc of radius `params.radius`, in row-major order. Springs join every
    /// two particles at most a lattice diagonal apart, at rest at their
    /// distances now, and each particle without a spring to one of lower
    /// index to the nearest such; the graph is connected and joins no pair
    /// twice. There is no outline; the centre particle is the one nearest
    /// `origin`.
    pub fn new_grid(origin: Point, params: BlobParams, spacing: i64) -> (b: Blob)
        requires
            params.physics_ok(),
            0 < spacing <= 0x100_0000,
            0 <= params.radius <= 64 * spacing,
            fits(origin, params),
        ensures
            b.wf(),
            b.params == params,
            b.particles.len() >= 1,
            b.particle_mass == share_mass(params.mass as int, b.particles.len() as int),
            forall|k: int|
                0 <= k < b.particles.len() ==> (#[trigger] b.particles[k]).vel == (Point { x: 0, y: 0 })
                    && sq_dist(b.particles[k].pos, origin) <= params.radius * params.radius
                    && (b.particles[k].pos.x - origin.x) % (spacing as int) == 0
                    && (b.particles[k].pos.y - origin.y) % (spacing as int) == 0,
            forall|x: int, y: int|
                (x * spacing) * (x * spacing) + (y * spacing) * (y * spacing) <= params.radius * params.radius
                    ==> exists|k: int|
                    0 <= k < b.particles.len() && #[trigger] lattice_point(x, y, spacing as int).x == b.particles[k].pos.x
                        - origin.x && lattice_point(x, y, spacing as int).y == b.particles[k].pos.y - origin.y,
            connected(b.springs@, b.particles.len() as int),
            no_duplicates(b.springs@),
            rest_exact(b.springs@, b.particles@),
            forall|i: int, j: int|
                0 <= i < j < b.particles.len() && sq_dist(b.particles[i].pos, b.particles[j].pos) <= 2
                    * spacing * spacing ==> #[trigger] joined(b.springs@, i, j),
            forall|k: int|
                0 <= k < b.springs.len() ==> sq_dist(
                    b.particles[(#[trigger] b.springs@[k]).particle_a as int].pos,
                    b.particles[b.springs@[k].particle_b as int].pos,
                ) <= 2 * spacing * spacing || lower_link(b.springs@[k], b.particles@),
            b.outline_particles_indices.len() == 0,
            b.center_particle_index < b.particles.len(),
            forall|k: int|
                0 <= k < b.particles.len() ==> sq_dist(b.particles[b.center_particle_index as int].pos, origin)
                    <= sq_dist(#[trigger] b.particles[k].pos, origin),
    {
        let offsets = lattice_offsets(params.radius, spacing);
        let n = offsets.len();
        let mut particles: Vec<Particle> = Vec::new();
        let mut k: usize = 0;
        assert(params.radius * params.radius >= 0) by (nonlinear_arith);
        while k < n
            invariant
                k <= n,
                n == offsets.len(),
                n <= 16641,
                particles.len() == k,
                fits(origin, params),
                0 <= params.radius <= 64 * spacing,
                forall|m: int| 0 <= m < n ==> in_disc(#[trigger] offsets[m], params.radius as int),
                forall|m: int|
                    0 <= m < n ==> (#[trigger] offsets[m]).x as int % (spacing as int) == 0 && offsets[m].y as int
                        % (spacing as int) == 0,
                forall|m: int|
                    0 <= m < k ==> {
                        &&& (#[trigger] particles[m]).vel == (Point { x: 0, y: 0 })
                        &&& particles[m].pos.x == origin.x + offsets[m].x
                        &&& particles[m].pos.y == origin.y + offsets[m].y
                        &&& coord_ok(particles[m].pos, POS_LIMIT as int)
                    },
            decreases n - k,
        {
            let o = offsets[k];
            assert(in_disc(offsets@[k as int], params.radius as int));
            particles.push(Particle { pos: Point { x: origin.x + o.x, y: origin.y + o.y }, vel: Point { x: 0, y: 0 } });
            k = k + 1;
        }
        proof {
            assert forall|m: int| 0 <= m < n implies coord_ok(#[trigger] particles@[m].pos, POS_LIMIT as int) && coord_ok(
                particles@[m].vel,
                VEL_LIMIT as int,
            ) by {
                assert(particles[m].vel == Point { x: 0, y: 0 });
            }
        }
        assert(0 <= 2 * spacing * spacing <= 0x2_0000_0000_0000) by (nonlinear_arith)
            requires
                0 < spacing <= 0x100_0000,
        ;
        let max2: i128 = 2 * (spacing as i128) * (spacing as i128);
        let mut springs = link_near(&particles, max2);
        assert(springs.len() + n <= MAX_SPRINGS) by (nonlinear_arith)
            requires
                springs.len() <= n * n,
                n <= 16641,
        ;
        let ghost near = springs@;
        link_below(&mut springs, &particles);
        proof {
            assert forall|k: int| 0 <= k < springs.len() implies sq_dist(
                particles@[(#[trigger] springs@[k]).particle_a as int].pos,
                particles@[springs@[k].particle_b as int].pos,
            ) <= 2 * spacing * spacing || lower_link(springs@[k], particles@) by {
                if k < near.len() {
                    assert(springs@[k] == near[k]);
                }
            }
        }
        let center = nearest_to(&particles, n, origin);
        let mass = particle_share(params.mass, n);
        let b = Blob {
            particles,
            springs,
            outline_particles_indices: Vec::new(),
            center_particle_index: center,
            params,
            particle_mass: mass,
        };
        proof {
            assert forall|i: int, j: int|
                0 <= i < j < b.particles.len() && sq_dist(b.particles[i].pos, b.particles[j].pos) <= 2 * spacing
                    * spacing implies #[trigger] joined(b.springs@, i, j) by {
                assert(joined(near, i, j));
                lemma_extends_joined(near, b.springs@, i, j);
            }
            assert forall|k: int| 0 <= k < b.particles.len() implies (#[trigger] b.particles[k]).vel == (Point { x: 0, y: 0 })
                && sq_dist(b.particles[k].pos, origin) <= params.radius * params.radius
                && (b.particles[k].pos.x - origin.x) % (spacing as int) == 0
                && (b.particles[k].pos.y - origin.y) % (spacing as int) == 0 by {
                assert(in_disc(offsets[k], params.radius as int));
                assert(sq_dist(b.particles[k].pos, origin) == sq_len(offsets[k].x as int, offsets[k].y as int));
            }
            assert forall|x: int, y: int|
                (x * spacing) * (x * spacing) + (y * spacing) * (y * spacing) <= params.radius * params.radius
                    implies exists|k: int|
                    0 <= k < b.particles.len() && #[trigger] lattice_point(x, y, spacing as int).x == b.particles[k].pos.x
                        - origin.x && lattice_point(x, y, spacing as int).y == b.particles[k].pos.y - origin.y by {
                assert(offsets@.contains(lattice_point(x, y, spacing as int)));
                let w = choose|w: int| 0 <= w < offsets.len() && offsets@[w] == lattice_point(x, y, spacing as int);
                assert(b.particles[w].pos.x == origin.x + offsets[w].x);
            }
        }
        b
    }

    /// A blob made of the given particles and springs, with no outline,
    /// particle `0` as its centre and the blob's mass shared evenly; `None`
    /// when a spring does not join two distinct existing particles, a
    /// quantity is beyond the stepper's limits, or there is no particle.
    pub fn from_parts(particles: Vec<Particle>, springs: Vec<Spring>, params: BlobParams) -> (r: Option<Blob>)
        ensures
            r.is_some() <==> (params.physics_ok() && 1 <= particles.len() <= MAX_PARTICLES
                && springs.len() <= MAX_SPRINGS && springs_valid(springs@, particles.len() as int)
                && particles_bounded(particles@)),
            r.is_some() ==> ({
                let b = r.unwrap();
                &&& b.wf()
                &&& b.particles@ == particles@
                &&& b.springs@ == springs@
                &&& b.outline_particles_indices.len() == 0
                &&& b.center_particle_index == 0
                &&& b.params == params
                &&& b.particle_mass == share_mass(params.mass as int, particles.len() as int)
            }),
    {
        if !(params.particle_radius >= -crate::params::MAX_PARTICLE_RADIUS
            && params.particle_radius <= crate::params::MAX_PARTICLE_RADIUS
            && params.stiffness >= 0 && params.stiffness <= crate::physics::MAX_STIFFNESS
            && params.gravity >= -crate::params::MAX_GRAVITY && params.gravity <= crate::params::MAX_GRAVITY
            && params.damping >= 0 && params.damping <= crate::params::PERMILLE && params.bounciness >= 0
            && params.bounciness <= crate::params::PERMILLE && params.max_speed >= 1
            && params.max_speed <= crate::params::MAX_SPEED) {
            return None;
        }
        let n = particles.len();
        if n == 0 || n > MAX_PARTICLES || springs.len() > MAX_SPRINGS {
            return None;
        }
        let mut k: usize = 0;
        while k < springs.len()
            invariant
                k <= springs.len(),
                n == particles.len(),
                forall|m: int|
                    0 <= m < k ==> {
                        let s = #[trigger] springs@[m];
                        &&& s.particle_a < n
                        &&& s.particle_b < n
                        &&& s.particle_a != s.particle_b
                        &&& s.rest_length <= crate::physics::REST_LIMIT
                    },
            decreases springs.len() - k,
        {
            let s = springs[k];
            if !(s.particle_a < n && s.particle_b < n && s.particle_a != s.particle_b
                && s.rest_length <= crate::physics::REST_LIMIT) {
                assert(!springs_valid(springs@, n as int)) by {
                    assert(springs@[k as int] == s);
                }
                return None;
            }
            k = k + 1;
        }
        let mut q: usize = 0;
        while q < n
            invariant
                q <= n,
                n == particles.len(),
                forall|m: int|
                    0 <= m < q ==> coord_ok(#[trigger] particles@[m].pos, POS_LIMIT as int) && coord_ok(
                        particles@[m].vel,
                        VEL_LIMIT as int,
                    ),
            decreases n - q,
        {
            let p = particles[q];
            if !(p.pos.x >= -POS_LIMIT && p.pos.x <= POS_LIMIT && p.pos.y >= -POS_LIMIT && p.pos.y <= POS_LIMIT
                && p.vel.x >= -VEL_LIMIT && p.vel.x <= VEL_LIMIT && p.vel.y >= -VEL_LIMIT && p.vel.y <= VEL_LIMIT) {
                assert(!particles_bounded(particles@)) by {
                    assert(particles@[q as int] == p);
                }
                return None;
            }
            assert(particles@[q as int] == p);
            assert(coord_ok(p.pos, POS_LIMIT as int));
            assert(coord_ok(p.vel, VEL_LIMIT as int));
            let ghost q0 = q;
            q = q + 1;
            assert forall|m: int| 0 <= m < q implies coord_ok(#[trigger] particles@[m].pos, POS_LIMIT as int) && coord_ok(
                particles@[m].vel,
                VEL_LIMIT as int,
            ) by {
                if m < q0 {
                    assert(coord_ok(particles@[m].pos, POS_LIMIT as int));
                } else {
                    assert(m == q0);
                }
            }
        }
        let mass = particle_share(params.mass, n);
        Some(
            Blob {
                particles,
                springs,
                outline_particles_indices: Vec::new(),
                center_particle_index: 0,
                params,
                particle_mass: mass,
            },
        )
    }

    /// Position of the particle nearest the blob's centre at construction.
    pub fn get_center_pos(&self) -> (r: Point)
        requires
            self.wf(),
            self.particles.len() > 0,
        ensures
            r == self.particles[self.center_particle_index as int].pos,
    {
        self.particles[self.center_particle_index].pos
    }

    /// Gives every particle the same extra velocity `force_vec`: a push on
    /// the whole blob, felt from the next step on.
    pub fn move_blob(&mut self, force_vec: Point)
        requires
            old(self).wf(),
            forall|k: int|
                0 <= k < old(self).particles.len() ==> {
                    let v = #[trigger] old(self).particles[k].vel;
                    &&& -VEL_LIMIT <= v.x + force_vec.x <= VEL_LIMIT
                    &&& -VEL_LIMIT <= v.y + force_vec.y <= VEL_LIMIT
                },
        ensures
            final(self).wf(),
            final(self).particles.len() == old(self).particles.len(),
            forall|k: int|
                0 <= k < final(self).particles.len() ==> {
                    &&& (#[trigger] final(self).particles[k]).pos == old(self).particles[k].pos
                    &&& final(self).particles[k].vel.x == old(self).particles[k].vel.x + force_vec.x
                    &&& final(self).particles[k].vel.y == old(self).particles[k].vel.y + force_vec.y
                },
            final(self).springs@ == old(self).springs@,
            final(self).outline_particles_indices@ == old(self).outline_particles_indices@,
            final(self).center_particle_index == old(self).center_particle_index,
            final(self).params == old(self).params,
            final(self).particle_mass == old(self).particle_mass,
    {
        let n = self.particles.len();
        let mut k: usize = 0;
        while k < n
            invariant
                0 <= k <= n,
                n == self.particles.len(),
                n == old(self).particles.len(),
                self.springs == old(self).springs,
                self.outline_particles_indices == old(self).outline_particles_indices,
                self.center_particle_index == old(self).center_particle_index,
                self.params == old(self).params,
                self.particle_mass == old(self).particle_mass,
                old(self).wf(),
                forall|m: int|
                    0 <= m < n ==> {
                        let v = #[trigger] old(self).particles[m].vel;
                        &&& -VEL_LIMIT <= v.x + force_vec.x <= VEL_LIMIT
                        &&& -VEL_LIMIT <= v.y + force_vec.y <= VEL_LIMIT
                    },
                forall|m: int|
                    0 <= m < k ==> {
                        &&& (#[trigger] self.particles[m]).pos == old(self).particles[m].pos
                        &&& self.particles[m].vel.x == old(self).particles[m].vel.x + force_vec.x
                        &&& self.particles[m].vel.y == old(self).particles[m].vel.y + force_vec.y
                    },
                forall|m: int| k <= m < n ==> #[trigger] self.particles[m] == old(self).particles[m],
            decreases n - k,
        {
            let p = self.particles[k];
            assert(p.vel == old(self).particles[k as int].vel);
            let v = Point { x: p.vel.x + force_vec.x, y: p.vel.y + force_vec.y };
            self.particles.set(k, Particle { pos: p.pos, vel: v });
            k = k + 1;
        }
        proof {
            assert forall|m: int| 0 <= m < n implies coord_ok(#[trigger] self.particles[m].pos, POS_LIMIT as int)
                && coord_ok(self.particles[m].vel, VEL_LIMIT as int) by {
                assert(self.particles[m].pos == old(self).particles[m].pos);
                assert(coord_ok(old(self).particles@[m].pos, POS_LIMIT as int));
            }
        }
    }

    /// The outline as drawn: each outline particle's position averaged with
    /// its two neighbours on the ring, weights one, two, one.
    pub fn outline_path(&self) -> (r: Vec<Point>)
        requires
            self.wf(),
        ensures
            r.len() == self.outline_particles_indices.len(),
            forall|i: int|
                0 <= i < r.len() ==> #[trigger] r[i] == smoothed(
                    self.particles@,
                    self.outline_particles_indices@,
                    i,
                ),
    {
        let n = self.outline_particles_indices.len();
        let mut out: Vec<Point> = Vec::new();
        let mut i: usize = 0;
        while i < n
            invariant
                0 <= i <= n,
                n == self.outline_particles_indices.len(),
                self.wf(),
                out.len() == i,
                forall|m: int|
                    0 <= m < i ==> #[trigger] out[m] == smoothed(
                        self.particles@,
                        self.outline_particles_indices@,
                        m,
                    ),
            decreases n - i,
        {
            let pi: usize = if i == 0 {
                n - 1
            } else {
                i - 1
            };
            assert(pi == (i + n - 1) % (n as int)) by (nonlinear_arith)
                requires
                    pi == (if i == 0 { n - 1 } else { i - 1 }),
                    0 <= i < n,
            ;
            let prev = self.outline_particles_indices[pi];
            let cur = self.outline_particles_indices[i];
            let next = self.outline_particles_indices[(i + 1) % n];
            let a = self.particles[prev].pos;
            let b = self.particles[cur].pos;
            let c = self.particles[next].pos;
            assert(coord_ok(self.particles@[prev as int].pos, POS_LIMIT as int));
            assert(coord_ok(self.particles@[cur as int].pos, POS_LIMIT as int));
            assert(coord_ok(self.particles@[next as int].pos, POS_LIMIT as int));
            let x = div_trunc(a.x as i128 + 2 * b.x as i128 + c.x as i128, 4);
            let y = div_trunc(a.y as i128 + 2 * b.y as i128 + c.y as i128, 4);
            out.push(Point { x: x as i64, y: y as i64 });
            i = i + 1;
        }
        out
    }
}

/// Outline point `i` as drawn: the position of outline particle `i`
/// averaged with those of its two neighbours on the ring, weights one, two,
/// one.
pub open spec fn smoothed(ps: Seq<Particle>, outline: Seq<usize>, i: int) -> Point {
    let n = outline.len() as int;
    let a = ps[outline[(i + n - 1) % n] as int].pos;
    let b = ps[outline[i] as int].pos;
    let c = ps[outline[(i + 1) % n] as int].pos;
    Point { x: tdiv(a.x + 2 * b.x + c.x, 4) as i64, y: tdiv(a.y + 2 * b.y + c.y, 4) as i64 }
}

/// Two particles of equal mass joined by springs alone (no gravity), with
/// opposite velocities, that hit no wall during the step: afterwards their
/// velocities are still opposite, so the pair's momentum stays zero.
pub proof fn lemma_two_particle_step_keeps_momentum(b: Blob, dt: int, width: int, height: int)
    requires
        b.wf(),
        b.particles.len() == 2,
        b.params.gravity == 0,
        b.particles[0].vel.x == -b.particles[1].vel.x,
        b.particles[0].vel.y == -b.particles[1].vel.y,
        forall|k: int|
            0 <= k < 2 ==> {
                let p = #[trigger] b.particles@[k];
                let f = spring_force(
                    b.particles@,
                    b.springs@,
                    b.params.stiffness as int,
                    b.springs.len() as int,
                    k,
                );
                let q = free_position(p, new_velocity(p, f.0, f.1, b.particle_mass as int, b.params, dt), dt);
                0 <= q.0 <= width && 0 <= q.1 <= height
            },
    ensures
        b.stepped(dt, width, height)[0].vel.x == -b.stepped(dt, width, height)[1].vel.x,
        b.stepped(dt, width, height)[0].vel.y == -b.stepped(dt, width, height)[1].vel.y,
{
    let ps = b.particles@;
    let c = b.springs.len() as int;
    let k_s = b.params.stiffness as int;
    let m = b.particle_mass as int;
    let prm = b.params;
    lemma_spring_forces_cancel(ps, b.springs@, k_s, c);
    assert(total_spring_force(ps, b.springs@, k_s, c, 0) == (0int, 0int));
    assert(total_spring_force(ps, b.springs@, k_s, c, 1) == spring_force(ps, b.springs@, k_s, c, 0));
    let f0 = spring_force(ps, b.springs@, k_s, c, 0);
    let f1 = spring_force(ps, b.springs@, k_s, c, 1);
    assert(f0.0 == -f1.0 && f0.1 == -f1.1);
    assert(m * prm.gravity == 0);
    let p0 = ps[0];
    let p1 = ps[1];
    lemma_kicked_odd(p1.vel.x as int, f1.0, m, dt, prm.damping as int);
    lemma_kicked_odd(p1.vel.y as int, f1.1, m, dt, prm.damping as int);
    let vx = kicked_velocity(p1.vel.x as int, f1.0, m, dt, prm.damping as int);
    let vy = kicked_velocity(p1.vel.y as int, f1.1, m, dt, prm.damping as int);
    lemma_speed_limited(vx, vy, prm.max_speed as int);
    lemma_speed_limited(vy, vx, prm.max_speed as int);
    let l0 = new_velocity(p0, f0.0, f0.1, m, prm, dt);
    let l1 = new_velocity(p1, f1.0, f1.1, m, prm, dt);
    assert(l0.0 == -l1.0 && l0.1 == -l1.1);
    let moved = b.advanced(dt, width, height);
    assert(ps[0] == b.particles@[0] && ps[1] == b.particles@[1]);
    assert(moved[0].vel.x == l0.0 && moved[0].vel.y == l0.1);
    assert(moved[1].vel.x == l1.0 && moved[1].vel.y == l1.1);
    lemma_collide_keeps_velocity(moved, prm.particle_radius as int, 2, 0, 1, 0);
    lemma_collide_keeps_velocity(moved, prm.particle_radius as int, 2, 0, 1, 1);
}

/// No two of the first `n` particles overlap: every pair is at least
/// `2 * r` apart, or coincides exactly.
pub open spec fn no_overlap(ps: Seq<Particle>, r: int) -> bool {
    forall|i: int, j: int|
        0 <= i < j < ps.len() ==> {
            let d2 = #[trigger] sq_dist(ps[i].pos, ps[j].pos);
            d2 == 0 || d2 >= (2 * r) * (2 * r)
        }
}

/// Every particle lies inside the `width` by `height` viewport.
pub open spec fn inside(ps: Seq<Particle>, width: int, height: int) -> bool {
    forall|k: int|
        0 <= k < ps.len() ==> 0 <= #[trigger] ps[k].pos.x <= width && 0 <= ps[k].pos.y <= height
}

proof fn lemma_collide_noop(ps: Seq<Particle>, r: int, n: int, i: int, j: int)
    requires
        n == ps.len(),
        0 <= i,
        i < j,
        no_overlap(ps, r),
    ensures
        collide_from(ps, r, n, i, j) == ps,
    decreases n - i, n - j,
{
    if i >= n {
    } else if j >= n {
        lemma_collide_noop(ps, r, n, i + 1, i + 2);
    } else {
        assert(sq_dist(ps[i].pos, ps[j].pos) == sq_len(ps[i].pos.x - ps[j].pos.x, ps[i].pos.y - ps[j].pos.y));
        assert(crate::physics::separate(ps, i, j, r) == ps);
        lemma_collide_noop(ps, r, n, i, j + 1);
    }
}

/// A step of zero length moves no particle that is inside the viewport:
/// the forces change velocities only. Only the overlap pass can then move a
/// particle, and it moves none when no two particles overlap.
pub proof fn lemma_zero_step_keeps_positions(b: Blob, width: int, height: int)
    requires
        b.wf(),
        0 <= width <= POS_LIMIT,
        0 <= height <= POS_LIMIT,
        inside(b.particles@, width, height),
    ensures
        forall|k: int|
            0 <= k < b.particles.len() ==> (#[trigger] b.advanced(0, width, height)[k]).pos
                == b.particles[k].pos,
        no_overlap(b.particles@, b.params.particle_radius as int) ==> forall|k: int|
            0 <= k < b.particles.len() ==> (#[trigger] b.stepped(0, width, height)[k]).pos
                == b.particles[k].pos,
{
    let moved = b.advanced(0, width, height);
    let n = b.particles.len() as int;
    assert forall|k: int| 0 <= k < n implies (#[trigger] moved[k]).pos == b.particles[k].pos by {
        let p = b.particles[k];
        assert(0 <= p.pos.x <= width);
        assert(tdiv(0, crate::physics::MICROS as int) == 0);
    }
    if no_overlap(b.particles@, b.params.particle_radius as int) {
        let r = b.params.particle_radius as int;
        assert forall|i: int, j: int| 0 <= i < j < moved.len() implies {
            let d2 = #[trigger] sq_dist(moved[i].pos, moved[j].pos);
            d2 == 0 || d2 >= (2 * r) * (2 * r)
        } by {
            assert(moved[i].pos == b.particles[i].pos);
            assert(moved[j].pos == b.particles[j].pos);
            assert(sq_dist(b.particles@[i].pos, b.particles@[j].pos) == sq_dist(moved[i].pos, moved[j].pos));
        }
        lemma_collide_noop(moved, r, n, 0, 1);
        assert forall|k: int| 0 <= k < n implies (#[trigger] b.stepped(0, width, height)[k]).pos
            == b.particles[k].pos by {
            assert(moved[k].pos == b.particles[k].pos);
            assert(0 <= b.particles[k].pos.x <= width);
        }
    }
}
} // verus!
