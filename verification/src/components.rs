//! The simulation's records — groups, particles, bonds — their fixed-point
//! configuration, and the ghost views that contracts are stated over.

use vstd::prelude::*;
use crate::math::Vec2;

verus! {

/// Sub-units per spatial unit: every coordinate, radius and speed is an
/// integer count of thousandths of a unit.
pub const SCALE: i64 = 1000;

/// Milliseconds per second: tick durations are integer milliseconds.
pub const DT_SCALE: i64 = 1000;

/// The friction coefficient is carried in thousandths: `1000` means no
/// damping, `0` full stop (scaled by the tick duration).
pub const FRICTION_ONE: i64 = 1000;

/// `FRICTION_ONE * DT_SCALE`, the denominator of the damping term.
pub const FRICTION_DENOM: i64 = 1_000_000;

/// Default physical particle radius: 3 units.
pub const DEFAULT_PARTICLE_RADIUS: i64 = 3000;

/// Default bond rest length: 12 units.
pub const DEFAULT_BOND_LENGTH: i64 = 12000;

/// Default maximum particle speed: 100 units per second.
pub const DEFAULT_MAX_SPEED: i64 = 100_000;

/// Largest accepted physical particle radius (100 units).
pub const RADIUS_MAX: i64 = 100_000;

/// Largest accepted group interaction radius.
pub const GROUP_RADIUS_MAX: i64 = 1_000_000_000_000;

/// Largest accepted plane half-extent.
pub const HALF_EXTENT_MAX: i64 = 1_000_000_000_000;

/// Largest accepted bond rest length.
pub const BOND_LENGTH_MAX: i64 = 1_000_000;

/// Largest accepted maximum speed.
pub const MAX_SPEED_MAX: i64 = 10_000_000;

/// Largest accepted particle population.
pub const MAX_PARTICLES: usize = 4096;

/// Largest accepted tick duration, in milliseconds.
pub const MAX_TICK_MILLIS: u64 = 1_000_000;

/// Velocity bound that every particle satisfies between ticks.
pub const VEL_LIMIT: i64 = 20_000_000_000;

/// How far beyond a half-extent a particle's position may lie between ticks.
pub const POS_SLACK: i64 = 100_000_000_000_000;

/// Largest position change of one particle in one pair interaction.
pub const PUSH_STEP: i64 = 10_000_000;

/// Largest velocity change of one particle in one pair interaction.
pub const FORCE_STEP: i64 = 20_000_000;

/// Coordinate cap under which every intermediate value of the per-element
/// computations fits the machine arithmetic.
pub const COORD_CAP: i64 = 1_000_000_000_000_000;

/// Global configuration, read-only during a tick.
#[derive(Clone, Copy)]
pub struct Config {
    /// Half of the plane's extent along x, in sub-units; the plane is
    /// `[-half_x, half_x]` by `[-half_y, half_y]`.
    pub half_x: i64,
    /// Half of the plane's extent along y, in sub-units.
    pub half_y: i64,
    /// Friction coefficient in thousandths, `0 ..= FRICTION_ONE`.
    pub friction: i64,
    /// Physical particle radius, in sub-units.
    pub particle_radius: i64,
    /// Bond rest length, in sub-units.
    pub bond_length: i64,
    /// Maximum particle speed, in sub-units per second.
    pub max_speed: i64,
}

impl Config {
    /// A configuration with the given plane half-extents and friction
    /// coefficient, and the default particle radius (3 units), bond rest
    /// length (12 units) and maximum speed (100 units per second).
    pub fn new(half_x: i64, half_y: i64, friction: i64) -> (c: Config)
        ensures
            c@ == (CfgS {
                half_x: half_x as int,
                half_y: half_y as int,
                friction: friction as int,
                radius: DEFAULT_PARTICLE_RADIUS as int,
                bond_length: DEFAULT_BOND_LENGTH as int,
                max_speed: DEFAULT_MAX_SPEED as int,
            }),
    {
        Config {
            half_x,
            half_y,
            friction,
            particle_radius: DEFAULT_PARTICLE_RADIUS,
            bond_length: DEFAULT_BOND_LENGTH,
            max_speed: DEFAULT_MAX_SPEED,
        }
    }
}

/// A particle's signed charge.
#[derive(Clone, Copy, PartialEq, Eq, Structural, Debug)]
pub struct Charge(pub i8);

/// A particle's velocity, in sub-units per second.
#[derive(Clone, Copy, PartialEq, Eq, Structural, Debug)]
pub struct Velocity(pub Vec2);

/// A named class of particles sharing an interaction radius and a base
/// charge.  Immutable after creation.
pub struct Group {
    pub name: String,
    /// Interaction radius, in sub-units.
    pub radius: i64,
    /// Charge that particles of this group spawn with.
    pub base_charge: i8,
}

/// A charged point particle.  The bonds a particle participates in are kept
/// in the bond arena, in creation order; `Simulation::bonds_of` recovers a
/// particle's own list.
#[derive(Clone, Copy, PartialEq, Eq, Structural, Debug)]
pub struct Particle {
    /// Position, in sub-units.
    pub position: Vec2,
    pub velocity: Velocity,
    /// Current charge; shrinks toward zero as bonds form.
    pub charge: Charge,
    /// Magnitude of the charge at spawn time; never changes.
    pub mass: u8,
    /// Index of the particle's group.
    pub group: usize,
}

/// Where a bond sits, for drawing: refreshed by the bond constraint solver.
#[derive(Clone, Copy, PartialEq, Eq, Structural, Debug)]
pub struct BondPlacement {
    /// Midpoint of the two endpoint positions.
    pub midpoint: Vec2,
    /// Distance of the endpoints before the rigid constraint was applied.
    pub length: i64,
    /// Unnormalised direction from endpoint B to endpoint A.
    pub direction: Vec2,
}

/// A permanent link between two particles, created when oppositely charged
/// particles collide.
#[derive(Clone, Copy, PartialEq, Eq, Structural, Debug)]
pub struct Bond {
    /// Index of endpoint A; always less than `particle_b`.
    pub particle_a: usize,
    /// Index of endpoint B.
    pub particle_b: usize,
    /// Charge magnitude that was taken from both endpoints at creation.
    pub c_bond: u8,
    pub placement: BondPlacement,
}

/// Ghost image of `Config`.
#[verifier::ext_equal]
pub ghost struct CfgS {
    pub half_x: int,
    pub half_y: int,
    pub friction: int,
    pub radius: int,
    pub bond_length: int,
    pub max_speed: int,
}

/// Ghost image of `Group`.
#[verifier::ext_equal]
pub ghost struct GroupS {
    pub name: Seq<char>,
    pub radius: int,
    pub base_charge: int,
}

/// Ghost image of `Particle`.
#[verifier::ext_equal]
pub ghost struct ParticleS {
    pub px: int,
    pub py: int,
    pub vx: int,
    pub vy: int,
    pub charge: int,
    pub mass: int,
    pub group: int,
}

/// Ghost image of `Bond`.
#[verifier::ext_equal]
pub ghost struct BondS {
    pub a: int,
    pub b: int,
    pub c: int,
    pub mid_x: int,
    pub mid_y: int,
    pub length: int,
    pub dir_x: int,
    pub dir_y: int,
}

impl View for Config {
    type V = CfgS;

    open spec fn view(&self) -> CfgS {
        CfgS {
            half_x: self.half_x as int,
            half_y: self.half_y as int,
            friction: self.friction as int,
            radius: self.particle_radius as int,
            bond_length: self.bond_length as int,
            max_speed: self.max_speed as int,
        }
    }
}

impl View for Group {
    type V = GroupS;

    open spec fn view(&self) -> GroupS {
        GroupS {
            name: self.name@,
            radius: self.radius as int,
            base_charge: self.base_charge as int,
        }
    }
}

impl View for Particle {
    type V = ParticleS;

    open spec fn view(&self) -> ParticleS {
        ParticleS {
            px: self.position.x as int,
            py: self.position.y as int,
            vx: self.velocity.0.x as int,
            vy: self.velocity.0.y as int,
            charge: self.charge.0 as int,
            mass: self.mass as int,
            group: self.group as int,
        }
    }
}

/// The views of a sequence of particles.
pub open spec fn pviews(s: Seq<Particle>) -> Seq<ParticleS> {
    s.map_values(|p: Particle| p@)
}

/// The views of a sequence of bonds.
pub open spec fn bviews(s: Seq<Bond>) -> Seq<BondS> {
    s.map_values(|b: Bond| b@)
}

/// The views of a sequence of groups.
pub open spec fn gviews(s: Seq<Group>) -> Seq<GroupS> {
    s.map_values(|g: Group| g@)
}

/// The mathematical images of a sequence of indices.
pub open spec fn uviews(s: Seq<usize>) -> Seq<int> {
    s.map_values(|u: usize| u as int)
}

/// Viewing commutes with updating one particle.
pub proof fn lemma_pviews_update(s: Seq<Particle>, i: int, p: Particle)
    requires
        0 <= i < s.len(),
    ensures
        pviews(s.update(i, p)) == pviews(s).update(i, p@),
{
    assert(pviews(s.update(i, p)) =~= pviews(s).update(i, p@));
}

/// Viewing commutes with appending one particle.
pub proof fn lemma_pviews_push(s: Seq<Particle>, p: Particle)
    ensures
        pviews(s.push(p)) == pviews(s).push(p@),
{
    assert(pviews(s.push(p)) =~= pviews(s).push(p@));
}

/// Viewing commutes with updating one bond.
pub proof fn lemma_bviews_update(s: Seq<Bond>, i: int, b: Bond)
    requires
        0 <= i < s.len(),
    ensures
        bviews(s.update(i, b)) == bviews(s).update(i, b@),
{
    assert(bviews(s.update(i, b)) =~= bviews(s).update(i, b@));
}

/// Viewing commutes with appending one bond.
pub proof fn lemma_bviews_push(s: Seq<Bond>, b: Bond)
    ensures
        bviews(s.push(b)) == bviews(s).push(b@),
{
    assert(bviews(s.push(b)) =~= bviews(s).push(b@));
}

/// Viewing commutes with appending one group.
pub proof fn lemma_gviews_push(s: Seq<Group>, g: Group)
    ensures
        gviews(s.push(g)) == gviews(s).push(g@),
{
    assert(gviews(s.push(g)) =~= gviews(s).push(g@));
}

/// Viewing commutes with appending one index.
pub proof fn lemma_uviews_push(s: Seq<usize>, u: usize)
    ensures
        uviews(s.push(u)) == uviews(s).push(u as int),
{
    assert(uviews(s.push(u)) =~= uviews(s).push(u as int));
}

impl View for Bond {
    type V = BondS;

    open spec fn view(&self) -> BondS {
        BondS {
            a: self.particle_a as int,
            b: self.particle_b as int,
            c: self.c_bond as int,
            mid_x: self.placement.midpoint.x as int,
            mid_y: self.placement.midpoint.y as int,
            length: self.placement.length as int,
            dir_x: self.placement.direction.x as int,
            dir_y: self.placement.direction.y as int,
        }
    }
}

} // verus!
