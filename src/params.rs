//! Tunable parameters of a blob.
use vstd::prelude::*;

verus! {

/// Parts per thousand: the unit of damping and bounciness.
pub const PERMILLE: i64 = 1000;
/// Largest magnitude of the gravitational acceleration.
pub const MAX_GRAVITY: i64 = 0x1_0000_0000;
/// Largest per-particle mass.
pub const MAX_MASS: i64 = 0x1_0000_0000;
/// Largest speed limit.
pub const MAX_SPEED: i64 = 0x100_0000_0000;
/// Largest particle radius.
pub const MAX_PARTICLE_RADIUS: i64 = 0x4_0000;
/// Largest time step, in microseconds.
pub const MAX_DT: u32 = 0x10_0000;

/// The tunables of a blob. Lengths are in length units, time in seconds,
/// `damping` and `bounciness` in parts per thousand.
#[derive(Clone, Copy, Debug, PartialEq, Eq, Structural)]
pub struct BlobParams {
    /// Radius of the disc that the particles fill, and of the outline ring.
    pub radius: i64,
    /// Radius of one particle: no two particles should come closer than
    /// twice this. Zero or less: particles never collide, and a built blob
    /// has a single particle.
    pub particle_radius: i64,
    /// Spring force per unit of stretch.
    pub stiffness: i64,
    /// Mass of the whole blob, shared evenly by its particles.
    pub mass: i64,
    /// Downward acceleration, in length units per second squared.
    pub gravity: i64,
    /// Share of the velocity kept at each step.
    pub damping: i64,
    /// Share of the speed kept, reversed, when a particle hits a wall.
    pub bounciness: i64,
    /// Speed that the soft limit approaches and never reaches.
    pub max_speed: i64,
}

impl BlobParams {
    /// The parameters the stepper can work with without overflow.
    pub open spec fn physics_ok(&self) -> bool {
        &&& -MAX_PARTICLE_RADIUS <= self.particle_radius <= MAX_PARTICLE_RADIUS
        &&& 0 <= self.stiffness <= crate::physics::MAX_STIFFNESS
        &&& -MAX_GRAVITY <= self.gravity <= MAX_GRAVITY
        &&& 0 <= self.damping <= PERMILLE
        &&& 0 <= self.bounciness <= PERMILLE
        &&& 1 <= self.max_speed <= MAX_SPEED
    }

    /// The blob at its usual size, at 256 length units per pixel: 160 pixels
    /// across, particles 16 pixels in radius, with mass in thousandths.
    pub fn standard() -> (r: BlobParams)
        ensures
            r.physics_ok(),
            r.radius == 40960,
            r.particle_radius == 4096,
            r.stiffness == 81_000,
            r.mass == 32_000,
            r.gravity == 409_600,
            r.damping == 990,
            r.bounciness == 100,
            r.max_speed == 1_474_560,
    {
        BlobParams {
            radius: 40960,
            particle_radius: 4096,
            stiffness: 81_000,
            mass: 32_000,
            gravity: 409_600,
            damping: 990,
            bounciness: 100,
            max_speed: 1_474_560,
        }
    }
}

} // verus!
