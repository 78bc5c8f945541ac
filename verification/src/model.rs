//! The mathematical model of the simulation: well-formedness of a state and
//! the exact meaning of one tick, as pure functions over ghost values.
//!
//! The executable code in `sim` is proved to compute precisely these
//! functions; the laws in `laws` are proved about them.

use vstd::prelude::*;
use vstd::arithmetic::div_mod::lemma_fundamental_div_mod_converse;
use vstd::set_lib::{set_int_range, lemma_int_range, lemma_len_subset};
use crate::math::{
    mag, sgn, div_t, sqrt_floor, sqrt_ceil, lemma_sqrt_floor, lemma_div_t_mag, lemma_div_t_scale,
    lemma_div_t_half_scale, lemma_mag_mul_le, lemma_root_le, lemma_root_floor, lemma_square_le,
};
use crate::components::{
    CfgS, GroupS, ParticleS, BondS, SCALE, DT_SCALE, FRICTION_ONE, FRICTION_DENOM, RADIUS_MAX,
    GROUP_RADIUS_MAX, HALF_EXTENT_MAX, BOND_LENGTH_MAX, MAX_SPEED_MAX, MAX_PARTICLES, POS_SLACK,
    PUSH_STEP, FORCE_STEP, MAX_TICK_MILLIS, COORD_CAP,
    VEL_LIMIT,
};

verus! {

/// A whole simulation state: the group registry, the particle arena and the
/// bond arena.
#[verifier::ext_equal]
pub ghost struct SimS {
    pub groups: Seq<GroupS>,
    pub particles: Seq<ParticleS>,
    pub bonds: Seq<BondS>,
}

/// The smaller of two integers.
pub open spec fn min_i(a: int, b: int) -> int {
    if a <= b {
        a
    } else {
        b
    }
}

/// A valid configuration: positive extents and radii within the machine
/// bounds, friction between full stop and no damping.
pub open spec fn cfg_wf(c: CfgS) -> bool {
    &&& 0 < c.radius <= RADIUS_MAX as int
    &&& c.radius <= c.half_x <= HALF_EXTENT_MAX as int
    &&& c.radius <= c.half_y <= HALF_EXTENT_MAX as int
    &&& 0 <= c.friction <= FRICTION_ONE as int
    &&& 0 < c.bond_length <= BOND_LENGTH_MAX as int
    &&& 0 < c.max_speed <= MAX_SPEED_MAX as int
}

/// A valid group: a positive interaction radius within bounds, a base
/// charge that fits the charge type.
pub open spec fn group_wf(g: GroupS) -> bool {
    &&& 0 < g.radius <= GROUP_RADIUS_MAX as int
    &&& -128 <= g.base_charge <= 127
}

/// The structural part of a particle's validity: a charge whose magnitude
/// never exceeds the spawn-time mass, and a live group.
pub open spec fn particle_struct_wf(s: SimS, i: int) -> bool {
    let p = s.particles[i];
    &&& -128 <= p.charge <= 127
    &&& 0 <= p.mass <= 128
    &&& mag(p.charge) <= p.mass
    &&& 0 <= p.group < s.groups.len()
}

/// Position and velocity bounds that hold of a particle between ticks.
pub open spec fn particle_coords_wf(c: CfgS, s: SimS, i: int) -> bool {
    let p = s.particles[i];
    &&& mag(p.px) <= c.half_x + POS_SLACK as int
    &&& mag(p.py) <= c.half_y + POS_SLACK as int
    &&& mag(p.vx) <= VEL_LIMIT as int
    &&& mag(p.vy) <= VEL_LIMIT as int
}

/// Position and velocity bounds that hold mid-pass, when the interaction
/// resolver or the bond solver has grown coordinates beyond their resting
/// bounds but machine arithmetic still holds them.
pub open spec fn coords_bounded(s: SimS, pb: int, vb: int) -> bool {
    forall|k: int|
        0 <= k < s.particles.len() ==> {
            let p = #[trigger] s.particles[k];
            mag(p.px) <= pb && mag(p.py) <= pb && mag(p.vx) <= vb && mag(p.vy) <= vb
        }
}

/// A valid bond: two distinct live endpoints, stored with the lower index
/// first, and a positive transferred charge.
pub open spec fn bond_wf(s: SimS, k: int) -> bool {
    let b = s.bonds[k];
    &&& 0 <= b.a < s.particles.len()
    &&& 0 <= b.b < s.particles.len()
    &&& b.a < b.b
    &&& 0 < b.c <= 128
}

/// Every bonded pair has at least one endpoint with charge zero: forming
/// the bond moved the smaller charge magnitude to zero, and no charge ever
/// grows again.
pub open spec fn bonds_neutralized(s: SimS) -> bool {
    forall|k: int|
        0 <= k < s.bonds.len() ==> #[trigger] s.particles[s.bonds[k].a].charge == 0
            || s.particles[s.bonds[k].b].charge == 0
}

/// No two bonds join the same pair of particles.
pub open spec fn bonds_distinct(s: SimS) -> bool {
    forall|k1: int, k2: int|
        0 <= k1 < k2 < s.bonds.len() ==> !(#[trigger] s.bonds[k1].a == #[trigger] s.bonds[k2].a
            && s.bonds[k1].b == s.bonds[k2].b)
}

/// Everything of the whole-state invariant but the coordinate bounds; this
/// part holds even mid-tick.
pub open spec fn sim_struct_wf(c: CfgS, s: SimS) -> bool {
    &&& cfg_wf(c)
    &&& s.particles.len() <= MAX_PARTICLES as int
    &&& forall|g: int| 0 <= g < s.groups.len() ==> group_wf(#[trigger] s.groups[g])
    &&& forall|i: int| 0 <= i < s.particles.len() ==> #[trigger] particle_struct_wf(s, i)
    &&& forall|k: int| 0 <= k < s.bonds.len() ==> #[trigger] bond_wf(s, k)
    &&& bonds_neutralized(s)
    &&& bonds_distinct(s)
}

/// The whole-state invariant: it holds after initialization and is
/// preserved by every tick.
pub open spec fn sim_wf(c: CfgS, s: SimS) -> bool {
    &&& sim_struct_wf(c, s)
    &&& forall|i: int| 0 <= i < s.particles.len() ==> #[trigger] particle_coords_wf(c, s, i)
}

/// Appending a valid group preserves the whole-state invariant.
pub proof fn lemma_wf_group_grow(c: CfgS, s: SimS, g: GroupS)
    requires
        sim_wf(c, s),
        group_wf(g),
    ensures
        sim_wf(c, SimS { groups: s.groups.push(g), ..s }),
{
    let s1 = SimS { groups: s.groups.push(g), ..s };
    assert forall|i: int| 0 <= i < s1.particles.len() implies #[trigger] particle_struct_wf(
        s1,
        i,
    ) by {
        assert(particle_struct_wf(s, i));
    }
    assert forall|i: int| 0 <= i < s1.particles.len() implies #[trigger] particle_coords_wf(
        c,
        s1,
        i,
    ) by {
        assert(particle_coords_wf(c, s, i));
    }
    assert forall|k: int| 0 <= k < s1.bonds.len() implies #[trigger] bond_wf(s1, k) by {
        assert(bond_wf(s, k));
    }
}

/// Appending a fresh, in-bounds, resting particle preserves the
/// whole-state invariant.
pub proof fn lemma_wf_spawn(c: CfgS, s: SimS, p: ParticleS)
    requires
        sim_wf(c, s),
        s.particles.len() < MAX_PARTICLES as int,
        -128 <= p.charge <= 127,
        0 <= p.mass <= 128,
        mag(p.charge) <= p.mass,
        0 <= p.group < s.groups.len(),
        mag(p.px) <= c.half_x,
        mag(p.py) <= c.half_y,
        p.vx == 0,
        p.vy == 0,
    ensures
        sim_wf(c, SimS { particles: s.particles.push(p), ..s }),
{
    let s1 = SimS { particles: s.particles.push(p), ..s };
    let n = s.particles.len() as int;
    assert forall|i: int| 0 <= i < s1.particles.len() implies #[trigger] particle_struct_wf(
        s1,
        i,
    ) by {
        if i < n {
            assert(particle_struct_wf(s, i));
            assert(s1.particles[i] == s.particles[i]);
        }
    }
    assert forall|i: int| 0 <= i < s1.particles.len() implies #[trigger] particle_coords_wf(
        c,
        s1,
        i,
    ) by {
        if i < n {
            assert(particle_coords_wf(c, s, i));
            assert(s1.particles[i] == s.particles[i]);
        }
    }
    assert forall|k: int| 0 <= k < s1.bonds.len() implies #[trigger] bond_wf(s1, k) by {
        assert(bond_wf(s, k));
    }
    assert(bonds_neutralized(s1)) by {
        assert forall|k: int|
            0 <= k < s1.bonds.len() implies #[trigger] s1.particles[s1.bonds[k].a].charge == 0
            || s1.particles[s1.bonds[k].b].charge == 0 by {
            assert(bond_wf(s, k));
            assert(s1.particles[s1.bonds[k].a] == s.particles[s.bonds[k].a]);
            assert(s1.particles[s1.bonds[k].b] == s.particles[s.bonds[k].b]);
        }
    }
}

/// The particle that spawning into group `g` at a position produces: at
/// rest, carrying the group's base charge, with its mass fixed to that
/// charge's magnitude.
pub open spec fn spawned_particle(g: GroupS, px: int, py: int, group: int) -> ParticleS {
    ParticleS { px, py, vx: 0, vy: 0, charge: g.base_charge, mass: mag(g.base_charge), group }
}

/// Whether particles `i` and `j` (with `i < j`) are joined by some bond.
pub open spec fn pair_bonded(s: SimS, i: int, j: int) -> bool {
    exists|k: int| 0 <= k < s.bonds.len() && #[trigger] s.bonds[k].a == i && s.bonds[k].b == j
}

/// Position change of the deep-overlap separation along one axis:
/// the unnormalised direction scaled by the particle radius in units.
pub open spec fn push_delta(dx: int, rad: int) -> int {
    div_t(dx * rad, SCALE as int)
}

/// A charge after `amt` has been moved toward zero.
pub open spec fn charge_after(cv: int, amt: int) -> int {
    cv - sgn(cv) * amt
}

/// The force scalar of a pair: twice the magnitude of A's charge, with the
/// sign chosen so that opposite charges attract and like charges repel.
pub open spec fn force_of(ca: int, cb: int) -> int {
    -((mag(ca) + mag(ca)) * (sgn(ca) * sgn(cb)))
}

/// Velocity change along one axis from the long-range force: the
/// unnormalised direction times the force and A's mass, with the
/// `1 / (2 * distance)` falloff.
pub open spec fn kick(dx: int, force: int, mass: int, d: int) -> int {
    div_t(dx * force * mass * (SCALE as int), 2 * d)
}

/// Whether two particles at squared distance `d2` collide.
pub open spec fn colliding(c: CfgS, d2: int) -> bool {
    d2 <= 4 * c.radius * c.radius
}

/// Whether two colliding particles overlap deeply enough to be separated.
pub open spec fn deep_overlap(c: CfgS, d2: int) -> bool {
    d2 < c.radius * c.radius
}

/// Whether the charges of a colliding pair allow a bond: both non-zero and
/// of opposite sign.
pub open spec fn can_bond(ca: int, cb: int) -> bool {
    ca != 0 && cb != 0 && sgn(ca) != sgn(cb)
}

/// Whether the long-range force of a particle with group radius `radius`
/// reaches across squared distance `d2`.
pub open spec fn in_force_range(c: CfgS, d2: int, radius: int) -> bool {
    4 * c.radius * c.radius < d2 && d2 < radius * radius
}

/// The collision part of one pair visit: separation of deep overlaps (A is
/// moved against the unnormalised pair direction and B along it, so the
/// endpoints are driven apart through each other — the displacement is not
/// distance-normalised), elastic bounce, and bond formation.  Assumes
/// `colliding` holds.
pub open spec fn collide_step(c: CfgS, s: SimS, i: int, j: int) -> SimS {
    let a = s.particles[i];
    let b = s.particles[j];
    let dx = a.px - b.px;
    let dy = a.py - b.py;
    let d2 = dx * dx + dy * dy;
    let a1 = if deep_overlap(c, d2) {
        ParticleS { px: a.px - push_delta(dx, c.radius), py: a.py - push_delta(dy, c.radius), ..a }
    } else {
        a
    };
    let b1 = if deep_overlap(c, d2) {
        ParticleS { px: b.px + push_delta(dx, c.radius), py: b.py + push_delta(dy, c.radius), ..b }
    } else {
        b
    };
    let a2 = ParticleS { vx: -a1.vx, vy: -a1.vy, ..a1 };
    let b2 = ParticleS { vx: -b1.vx, vy: -b1.vy, ..b1 };
    if can_bond(a.charge, b.charge) {
        let amt = min_i(mag(a.charge), mag(b.charge));
        let a3 = ParticleS { charge: charge_after(a.charge, amt), ..a2 };
        let b3 = ParticleS { charge: charge_after(b.charge, amt), ..b2 };
        let bond = BondS { a: i, b: j, c: amt, mid_x: 0, mid_y: 0, length: 0, dir_x: 0, dir_y: 0 };
        SimS {
            particles: s.particles.update(i, a3).update(j, b3),
            bonds: s.bonds.push(bond),
            groups: s.groups,
        }
    } else {
        SimS { particles: s.particles.update(i, a2).update(j, b2), ..s }
    }
}

/// The long-range force part of one pair visit.  Assumes the pair is not
/// bonded; each side receives a kick only when the squared distance lies
/// strictly between the collision threshold and the other side's group
/// radius.
pub open spec fn force_step(c: CfgS, s: SimS, i: int, j: int, dx: int, dy: int, ca: int, cb: int, mass_a: int, radius_a: int, radius_b: int) -> SimS {
    let d2 = dx * dx + dy * dy;
    let d = sqrt_floor(d2);
    let f = force_of(ca, cb);
    let pa = s.particles[i];
    let pb = s.particles[j];
    let pb1 = if in_force_range(c, d2, radius_a) {
        ParticleS { vx: pb.vx + kick(dx, f, mass_a, d), vy: pb.vy + kick(dy, f, mass_a, d), ..pb }
    } else {
        pb
    };
    let pa1 = if in_force_range(c, d2, radius_b) {
        ParticleS { vx: pa.vx + kick(-dx, f, mass_a, d), vy: pa.vy + kick(-dy, f, mass_a, d), ..pa }
    } else {
        pa
    };
    SimS { particles: s.particles.update(i, pa1).update(j, pb1), ..s }
}

/// One visit of the unordered pair `(i, j)`, `i < j`: collision handling
/// (with bonding), then — unless the pair is bonded — the long-range force.
pub open spec fn pair_step(c: CfgS, s: SimS, i: int, j: int) -> SimS {
    let a = s.particles[i];
    let b = s.particles[j];
    let dx = a.px - b.px;
    let dy = a.py - b.py;
    let d2 = dx * dx + dy * dy;
    let s1 = if colliding(c, d2) {
        collide_step(c, s, i, j)
    } else {
        s
    };
    if pair_bonded(s1, i, j) {
        s1
    } else {
        force_step(
            c,
            s1,
            i,
            j,
            dx,
            dy,
            a.charge,
            b.charge,
            a.mass,
            s.groups[a.group].radius,
            s.groups[b.group].radius,
        )
    }
}

/// The interaction resolver from pair `(i, j)` onward, in ascending
/// lexicographic order.
pub open spec fn interact_from(c: CfgS, s: SimS, i: int, j: int) -> SimS
    decreases s.particles.len() - i, s.particles.len() - j,
{
    let n = s.particles.len() as int;
    if i < 0 || j <= i {
        s
    } else if i >= n - 1 {
        s
    } else if j >= n {
        interact_from(c, s, i + 1, i + 2)
    } else {
        interact_from(c, pair_step(c, s, i, j), i, j + 1)
    }
}

/// The whole interaction resolver pass: every unordered pair of distinct
/// particles, visited exactly once, in ascending order.
pub open spec fn interact_all(c: CfgS, s: SimS) -> SimS {
    interact_from(c, s, 0, 1)
}

/// The bond constraint solver's repositioning on plain coordinates: the
/// new positions of A and B given their current positions and masses.
/// The lighter endpoint is placed exactly one rest length from the heavier
/// one, on its own side of it along the current direction; a tie
/// repositions A.  Endpoints less than one unit apart are left untouched:
/// at sub-unit separations the fixed-point direction cannot be normalised.
pub open spec fn bond_vals(c: CfgS, pax: int, pay: int, pbx: int, pby: int, ma: int, mb: int) -> (
    int,
    int,
    int,
    int,
) {
    let dx = pax - pbx;
    let dy = pay - pby;
    let d2 = dx * dx + dy * dy;
    let d = sqrt_floor(d2);
    if d < SCALE as int {
        (pax, pay, pbx, pby)
    } else if ma > mb {
        (pax, pay, pax - div_t(dx * c.bond_length, d), pay - div_t(dy * c.bond_length, d))
    } else {
        (pbx + div_t(dx * c.bond_length, d), pby + div_t(dy * c.bond_length, d), pbx, pby)
    }
}

/// One bond visit of the constraint solver: reposition the lighter
/// endpoint to sit exactly one rest length from the heavier one, on its
/// own side along the current direction (ties reposition A), and refresh
/// the cosmetic placement.  Endpoints less than one unit apart are left
/// untouched, a guarded no-op.
pub open spec fn bond_step(c: CfgS, s: SimS, k: int) -> SimS {
    let bd = s.bonds[k];
    let pa = s.particles[bd.a];
    let pb = s.particles[bd.b];
    let dx = pa.px - pb.px;
    let dy = pa.py - pb.py;
    let d2 = dx * dx + dy * dy;
    let d = sqrt_floor(d2);
    if d < SCALE as int {
        s
    } else {
        let r = bond_vals(c, pa.px, pa.py, pb.px, pb.py, pa.mass, pb.mass);
        let pa1 = ParticleS { px: r.0, py: r.1, ..pa };
        let pb1 = ParticleS { px: r.2, py: r.3, ..pb };
        let bd1 = BondS {
            mid_x: div_t(pa1.px + pb1.px, 2),
            mid_y: div_t(pa1.py + pb1.py, 2),
            length: d,
            dir_x: dx,
            dir_y: dy,
            ..bd
        };
        SimS {
            particles: s.particles.update(bd.a, pa1).update(bd.b, pb1),
            bonds: s.bonds.update(k, bd1),
            groups: s.groups,
        }
    }
}

/// The bond constraint solver from bond `k` onward.
pub open spec fn bonds_from(c: CfgS, s: SimS, k: int) -> SimS
    decreases s.bonds.len() - k,
{
    if k < 0 || k >= s.bonds.len() {
        s
    } else {
        bonds_from(c, bond_step(c, s, k), k + 1)
    }
}

/// The whole bond constraint solver pass, over every bond in creation
/// order.
pub open spec fn bonds_all(c: CfgS, s: SimS) -> SimS {
    bonds_from(c, s, 0)
}

/// Boundary reflection along one axis: a position beyond the half-extent
/// (inset by the particle radius) is clamped to it and the velocity
/// component inverted.
pub open spec fn reflect_axis(p: int, v: int, half: int, rad: int) -> (int, int) {
    if p < -(half - rad) {
        (-(half - rad), -v)
    } else if p > half - rad {
        (half - rad, -v)
    } else {
        (p, v)
    }
}

/// Speed clamp: a velocity whose magnitude exceeds `vmax` is scaled down
/// onto the circle of radius `vmax`.
pub open spec fn clamp_speed(vx: int, vy: int, vmax: int) -> (int, int) {
    let s2 = vx * vx + vy * vy;
    if s2 > vmax * vmax {
        let d = sqrt_ceil(s2);
        (div_t(vx * vmax, d), div_t(vy * vmax, d))
    } else {
        (vx, vy)
    }
}

/// Friction damping of one velocity component: `k` is
/// `(FRICTION_ONE - friction) * dt`.
pub open spec fn damp(v: int, k: int) -> int {
    v - div_t(v * k, FRICTION_DENOM as int)
}

/// The integrator on plain coordinates: speed clamp, friction damping,
/// Euler step, then boundary reflection, so that containment holds when
/// the tick ends; returns the new position and velocity.
pub open spec fn integrate_vals(c: CfgS, px: int, py: int, vx: int, vy: int, dt: int) -> (
    int,
    int,
    int,
    int,
) {
    let v2 = clamp_speed(vx, vy, c.max_speed);
    let k = (FRICTION_ONE as int - c.friction) * dt;
    let vx3 = damp(v2.0, k);
    let vy3 = damp(v2.1, k);
    let px1 = px + div_t(vx3 * dt, DT_SCALE as int);
    let py1 = py + div_t(vy3 * dt, DT_SCALE as int);
    let r1 = reflect_axis(px1, vx3, c.half_x, c.radius);
    let r2 = reflect_axis(py1, vy3, c.half_y, c.radius);
    (r1.0, r2.0, r1.1, r2.1)
}

/// The integrator on one particle: speed clamp, friction damping, Euler
/// step, boundary reflection.
pub open spec fn integrate_one(c: CfgS, p: ParticleS, dt: int) -> ParticleS {
    let r = integrate_vals(c, p.px, p.py, p.vx, p.vy, dt);
    ParticleS { px: r.0, py: r.1, vx: r.2, vy: r.3, ..p }
}

/// The bond ids among the first `m` bonds that particle `i` participates
/// in, in creation order.
pub open spec fn bond_ids_upto(s: SimS, i: int, m: int) -> Seq<int>
    decreases m,
{
    if m <= 0 {
        Seq::empty()
    } else if s.bonds[m - 1].a == i || s.bonds[m - 1].b == i {
        bond_ids_upto(s, i, m - 1).push(m - 1)
    } else {
        bond_ids_upto(s, i, m - 1)
    }
}

/// The bond ids that particle `i` participates in, in creation order: the
/// particle's own append-only bond list.
pub open spec fn bond_ids_of(s: SimS, i: int) -> Seq<int> {
    bond_ids_upto(s, i, s.bonds.len() as int)
}

/// The whole integrator pass: every particle independently.
pub open spec fn integrate_all(c: CfgS, s: SimS, dt: int) -> SimS {
    SimS {
        particles: Seq::new(s.particles.len(), |i: int| integrate_one(c, s.particles[i], dt)),
        ..s
    }
}

/// One tick: interaction resolver, then bond constraint solver, then
/// integrator.  A non-positive tick duration is a no-op.
pub open spec fn tick_spec(c: CfgS, s: SimS, dt: int) -> SimS {
    if dt <= 0 {
        s
    } else {
        integrate_all(c, bonds_all(c, interact_all(c, s)), dt)
    }
}

/// A whole run: the ticks of `dts`, in order.
pub open spec fn run_spec(c: CfgS, s: SimS, dts: Seq<int>) -> SimS
    decreases dts.len(),
{
    if dts.len() == 0 {
        s
    } else {
        run_spec(c, tick_spec(c, s, dts[0]), dts.drop_first())
    }
}

/// The force scalar's magnitude is at most twice A's charge magnitude.
pub proof fn lemma_force_mag(ca: int, cb: int)
    ensures
        mag(force_of(ca, cb)) <= 2 * mag(ca),
{
    let f = force_of(ca, cb);
    let sp = sgn(ca) * sgn(cb);
    assert(-1 <= sp <= 1) by (nonlinear_arith)
        requires
            -1 <= sgn(ca) <= 1,
            -1 <= sgn(cb) <= 1,
            sp == sgn(ca) * sgn(cb),
    ;
    assert(mag(f) <= 2 * mag(ca)) by (nonlinear_arith)
        requires
            f == -((mag(ca) + mag(ca)) * sp),
            -1 <= sp <= 1,
            mag(ca) >= 0,
            mag(f) == (if f >= 0 { f } else { -f }),
    ;
}

/// Moving `amt` toward zero shrinks a charge's magnitude by exactly `amt`.
pub proof fn lemma_charge_after(cv: int, amt: int)
    requires
        cv != 0,
        0 <= amt <= mag(cv),
    ensures
        mag(charge_after(cv, amt)) == mag(cv) - amt,
        amt == mag(cv) ==> charge_after(cv, amt) == 0,
{
    if cv > 0 {
        assert(sgn(cv) * amt == amt) by (nonlinear_arith)
            requires
                sgn(cv) == 1,
        ;
    } else {
        assert(sgn(cv) * amt == -amt) by (nonlinear_arith)
            requires
                sgn(cv) == -1,
        ;
    }
}

/// The deep-overlap separation moves a coordinate by at most `PUSH_STEP`.
pub proof fn lemma_push_mag(c: CfgS, dx: int)
    requires
        cfg_wf(c),
        mag(dx) <= c.radius,
    ensures
        mag(push_delta(dx, c.radius)) <= PUSH_STEP as int,
{
    lemma_mag_mul_le(dx, c.radius, c.radius, c.radius);
    assert(c.radius * c.radius <= 10_000_000_000) by (nonlinear_arith)
        requires
            0 < c.radius <= 100_000,
    ;
    lemma_div_t_mag(dx * c.radius, SCALE as int);
}

/// A long-range kick changes a velocity coordinate by at most
/// `FORCE_STEP`.
pub proof fn lemma_kick_mag(dx: int, dy: int, ca: int, cb: int, ma: int)
    requires
        -128 <= ca <= 127,
        -128 <= cb <= 127,
        0 <= ma <= 128,
        dx * dx + dy * dy >= 1,
    ensures
        mag(kick(dx, force_of(ca, cb), ma, sqrt_floor(dx * dx + dy * dy))) <= FORCE_STEP as int,
{
    let d2 = dx * dx + dy * dy;
    let d = sqrt_floor(d2);
    let f = force_of(ca, cb);
    lemma_sqrt_floor(d2);
    assert(d >= 1) by {
        if d == 0 {
            assert((d + 1) * (d + 1) == 1) by (nonlinear_arith)
                requires
                    d == 0,
            ;
        }
    }
    assert(dx * dx <= d2) by (nonlinear_arith)
        requires
            d2 == dx * dx + dy * dy,
    ;
    lemma_root_floor(dx, d2, d);
    lemma_force_mag(ca, cb);
    let kk = f * ma * (SCALE as int);
    assert(mag(f * ma) <= 256 * 128) by {
        lemma_mag_mul_le(f, ma, 256, 128);
    }
    assert(mag(kk) <= 32_768_000) by {
        lemma_mag_mul_le(f * ma, SCALE as int, 32768, 1000);
    }
    lemma_div_t_half_scale(dx, kk, d);
    assert(dx * f * ma * (SCALE as int) == dx * kk) by (nonlinear_arith)
        requires
            kk == f * ma * (SCALE as int),
    ;
}

/// The collision part of a pair visit preserves the structural invariant,
/// grows each position coordinate by at most `PUSH_STEP`, leaves velocity
/// magnitudes unchanged, leaves every existing bond as it was, and only
/// moves charges toward zero.
pub proof fn lemma_collide_props(c: CfgS, s: SimS, i: int, j: int, pb: int, vb: int)
    requires
        sim_struct_wf(c, s),
        0 <= i < j < s.particles.len(),
        coords_bounded(s, pb, vb),
        0 <= pb,
        0 <= vb,
    ensures
        ({
            let s1 = collide_step(c, s, i, j);
            &&& sim_struct_wf(c, s1)
            &&& s1.groups == s.groups
            &&& s1.particles.len() == s.particles.len()
            &&& s.bonds.len() <= s1.bonds.len() <= s.bonds.len() + 1
            &&& forall|k: int| 0 <= k < s.bonds.len() ==> #[trigger] s1.bonds[k] == s.bonds[k]
            &&& coords_bounded(s1, pb + PUSH_STEP as int, vb)
            &&& forall|k: int|
                0 <= k < s.particles.len() ==> #[trigger] s1.particles[k].mass
                    == s.particles[k].mass && s1.particles[k].group == s.particles[k].group && mag(
                    s1.particles[k].charge,
                ) <= mag(s.particles[k].charge)
        }),
{
    let s1 = collide_step(c, s, i, j);
    let a = s.particles[i];
    let b = s.particles[j];
    let dx = a.px - b.px;
    let dy = a.py - b.py;
    let d2 = dx * dx + dy * dy;
    if deep_overlap(c, d2) {
        assert(dx * dx <= d2 && dy * dy <= d2) by (nonlinear_arith)
            requires
                d2 == dx * dx + dy * dy,
        ;
        assert(d2 <= c.radius * c.radius);
        lemma_root_le(dx, c.radius);
        lemma_root_le(dy, c.radius);
        lemma_push_mag(c, dx);
        lemma_push_mag(c, dy);
    }
    assert(particle_struct_wf(s, i));
    assert(particle_struct_wf(s, j));
    if can_bond(a.charge, b.charge) {
        let amt = min_i(mag(a.charge), mag(b.charge));
        lemma_charge_after(a.charge, amt);
        lemma_charge_after(b.charge, amt);
        assert(bonds_distinct(s1)) by {
            assert forall|k1: int, k2: int| 0 <= k1 < k2 < s1.bonds.len() implies !(
            #[trigger] s1.bonds[k1].a == #[trigger] s1.bonds[k2].a && s1.bonds[k1].b
                == s1.bonds[k2].b) by {
                if k2 == s.bonds.len() {
                    if s1.bonds[k1].a == i && s1.bonds[k1].b == j {
                        assert(s.particles[s.bonds[k1].a].charge == 0 || s.particles[s.bonds[k1].b].charge
                            == 0);
                    }
                }
            }
        }
        assert(bonds_neutralized(s1)) by {
            assert forall|k: int|
                0 <= k < s1.bonds.len() implies #[trigger] s1.particles[s1.bonds[k].a].charge == 0
                || s1.particles[s1.bonds[k].b].charge == 0 by {
                if k == s.bonds.len() {
                    if mag(a.charge) <= mag(b.charge) {
                        assert(s1.particles[i].charge == 0);
                    } else {
                        assert(s1.particles[j].charge == 0);
                    }
                } else {
                    assert(bond_wf(s, k));
                    assert(s.particles[s.bonds[k].a].charge == 0 || s.particles[s.bonds[k].b].charge
                        == 0);
                }
            }
        }
        assert forall|k: int| 0 <= k < s1.bonds.len() implies #[trigger] bond_wf(s1, k) by {
            if k < s.bonds.len() {
                assert(bond_wf(s, k));
            }
        }
        assert forall|k: int| 0 <= k < s1.particles.len() implies #[trigger] particle_struct_wf(
            s1,
            k,
        ) by {
            assert(particle_struct_wf(s, k));
        }
    } else {
        assert(bonds_distinct(s1)) by {
            assert forall|k1: int, k2: int| 0 <= k1 < k2 < s1.bonds.len() implies !(
            #[trigger] s1.bonds[k1].a == #[trigger] s1.bonds[k2].a && s1.bonds[k1].b
                == s1.bonds[k2].b) by {
                assert(s1.bonds[k1] == s.bonds[k1] && s1.bonds[k2] == s.bonds[k2]);
            }
        }
        assert(bonds_neutralized(s1)) by {
            assert forall|k: int|
                0 <= k < s1.bonds.len() implies #[trigger] s1.particles[s1.bonds[k].a].charge == 0
                || s1.particles[s1.bonds[k].b].charge == 0 by {
                assert(bond_wf(s, k));
                assert(s.particles[s.bonds[k].a].charge == 0 || s.particles[s.bonds[k].b].charge
                    == 0);
            }
        }
        assert forall|k: int| 0 <= k < s1.bonds.len() implies #[trigger] bond_wf(s1, k) by {
            assert(bond_wf(s, k));
        }
        assert forall|k: int| 0 <= k < s1.particles.len() implies #[trigger] particle_struct_wf(
            s1,
            k,
        ) by {
            assert(particle_struct_wf(s, k));
        }
    }
}

/// The long-range force part of a pair visit changes only the velocities
/// of `i` and `j`, by at most `FORCE_STEP` per coordinate.
pub proof fn lemma_force_props(
    c: CfgS,
    s: SimS,
    i: int,
    j: int,
    dx: int,
    dy: int,
    ca: int,
    cb: int,
    ma: int,
    ra: int,
    rb: int,
    pb: int,
    vb: int,
)
    requires
        sim_struct_wf(c, s),
        0 <= i < j < s.particles.len(),
        coords_bounded(s, pb, vb),
        0 <= pb,
        0 <= vb,
        -128 <= ca <= 127,
        -128 <= cb <= 127,
        0 <= ma <= 128,
    ensures
        ({
            let s2 = force_step(c, s, i, j, dx, dy, ca, cb, ma, ra, rb);
            &&& sim_struct_wf(c, s2)
            &&& s2.groups == s.groups
            &&& s2.bonds == s.bonds
            &&& s2.particles.len() == s.particles.len()
            &&& coords_bounded(s2, pb, vb + FORCE_STEP as int)
            &&& forall|k: int|
                0 <= k < s.particles.len() ==> #[trigger] s2.particles[k].mass
                    == s.particles[k].mass && s2.particles[k].group == s.particles[k].group
                    && s2.particles[k].charge == s.particles[k].charge && s2.particles[k].px
                    == s.particles[k].px && s2.particles[k].py == s.particles[k].py
        }),
{
    let s2 = force_step(c, s, i, j, dx, dy, ca, cb, ma, ra, rb);
    let d2 = dx * dx + dy * dy;
    if in_force_range(c, d2, ra) || in_force_range(c, d2, rb) {
        assert(d2 >= 1) by (nonlinear_arith)
            requires
                4 * c.radius * c.radius < d2,
                c.radius >= 1,
        ;
        assert((-dx) * (-dx) + (-dy) * (-dy) == d2) by (nonlinear_arith)
            requires
                d2 == dx * dx + dy * dy,
        ;
        assert((-dy) * (-dy) + (-dx) * (-dx) == d2) by (nonlinear_arith)
            requires
                d2 == dx * dx + dy * dy,
        ;
        assert(dy * dy + dx * dx == d2);
        lemma_kick_mag(dx, dy, ca, cb, ma);
        lemma_kick_mag(dy, dx, ca, cb, ma);
        lemma_kick_mag(-dx, -dy, ca, cb, ma);
        lemma_kick_mag(-dy, -dx, ca, cb, ma);
        assert(sqrt_floor(dy * dy + dx * dx) == sqrt_floor(d2));
        assert(sqrt_floor((-dx) * (-dx) + (-dy) * (-dy)) == sqrt_floor(d2));
        assert(sqrt_floor((-dy) * (-dy) + (-dx) * (-dx)) == sqrt_floor(d2));
    }
    assert forall|k: int| 0 <= k < s2.particles.len() implies #[trigger] particle_struct_wf(
        s2,
        k,
    ) by {
        assert(particle_struct_wf(s, k));
    }
    assert forall|k: int| 0 <= k < s2.bonds.len() implies #[trigger] bond_wf(s2, k) by {
        assert(bond_wf(s, k));
    }
    assert(bonds_neutralized(s2)) by {
        assert forall|k: int|
            0 <= k < s2.bonds.len() implies #[trigger] s2.particles[s2.bonds[k].a].charge == 0
            || s2.particles[s2.bonds[k].b].charge == 0 by {
            assert(bond_wf(s, k));
            assert(s.particles[s.bonds[k].a].charge == 0 || s.particles[s.bonds[k].b].charge == 0);
        }
    }
}

/// One pair visit preserves the structural invariant, grows coordinates by
/// at most one push and one kick, appends at most one bond, and only moves
/// charges toward zero.
pub proof fn lemma_pair_step_props(c: CfgS, s: SimS, i: int, j: int, pb: int, vb: int)
    requires
        sim_struct_wf(c, s),
        0 <= i < j < s.particles.len(),
        coords_bounded(s, pb, vb),
        0 <= pb,
        0 <= vb,
    ensures
        ({
            let s1 = pair_step(c, s, i, j);
            &&& sim_struct_wf(c, s1)
            &&& s1.groups == s.groups
            &&& s1.particles.len() == s.particles.len()
            &&& s.bonds.len() <= s1.bonds.len() <= s.bonds.len() + 1
            &&& forall|k: int| 0 <= k < s.bonds.len() ==> #[trigger] s1.bonds[k] == s.bonds[k]
            &&& coords_bounded(s1, pb + PUSH_STEP as int, vb + FORCE_STEP as int)
            &&& forall|k: int|
                0 <= k < s.particles.len() ==> #[trigger] s1.particles[k].mass
                    == s.particles[k].mass && s1.particles[k].group == s.particles[k].group && mag(
                    s1.particles[k].charge,
                ) <= mag(s.particles[k].charge)
        }),
{
    let a = s.particles[i];
    let b = s.particles[j];
    let dx = a.px - b.px;
    let dy = a.py - b.py;
    let d2 = dx * dx + dy * dy;
    let s1 = if colliding(c, d2) {
        collide_step(c, s, i, j)
    } else {
        s
    };
    if colliding(c, d2) {
        lemma_collide_props(c, s, i, j, pb, vb);
    }
    assert(coords_bounded(s1, pb + PUSH_STEP as int, vb));
    if !pair_bonded(s1, i, j) {
        assert(particle_struct_wf(s, i));
        assert(particle_struct_wf(s, j));
        lemma_force_props(
            c,
            s1,
            i,
            j,
            dx,
            dy,
            a.charge,
            b.charge,
            a.mass,
            s.groups[a.group].radius,
            s.groups[b.group].radius,
            pb + PUSH_STEP as int,
            vb,
        );
    }
}

/// The bond solver's step on one bond preserves the structural invariant,
/// moves positions by at most one rest length, and changes neither
/// velocities, charges, masses, nor any bond's endpoints or transferred
/// charge.
pub proof fn lemma_bond_step_props(c: CfgS, s: SimS, k: int, pb: int, vb: int)
    requires
        sim_struct_wf(c, s),
        0 <= k < s.bonds.len(),
        0 <= pb,
        0 <= vb,
    ensures
        ({
            let s1 = bond_step(c, s, k);
            &&& sim_struct_wf(c, s1)
            &&& s1.groups == s.groups
            &&& s1.particles.len() == s.particles.len()
            &&& s1.bonds.len() == s.bonds.len()
            &&& coords_bounded(s, pb, vb) ==> coords_bounded(
                s1,
                pb + BOND_LENGTH_MAX as int,
                vb,
            )
            &&& forall|l: int|
                0 <= l < s.bonds.len() ==> #[trigger] s1.bonds[l].a == s.bonds[l].a
                    && s1.bonds[l].b == s.bonds[l].b && s1.bonds[l].c == s.bonds[l].c
            &&& forall|l: int|
                0 <= l < s.particles.len() ==> #[trigger] s1.particles[l].mass
                    == s.particles[l].mass && s1.particles[l].group == s.particles[l].group
                    && s1.particles[l].charge == s.particles[l].charge && s1.particles[l].vx
                    == s.particles[l].vx && s1.particles[l].vy == s.particles[l].vy
        }),
{
    let s1 = bond_step(c, s, k);
    let bd = s.bonds[k];
    assert(bond_wf(s, k));
    let pa = s.particles[bd.a];
    let pb_ = s.particles[bd.b];
    let dx = pa.px - pb_.px;
    let dy = pa.py - pb_.py;
    let d2 = dx * dx + dy * dy;
    let d = sqrt_floor(d2);
    assert(d2 >= 0 && dx * dx <= d2 && dy * dy <= d2) by (nonlinear_arith)
        requires
            d2 == dx * dx + dy * dy,
    ;
    lemma_sqrt_floor(d2);
    if d > 0 {
        lemma_root_floor(dx, d2, d);
        lemma_root_floor(dy, d2, d);
        lemma_div_t_scale(dx, c.bond_length, d);
        lemma_div_t_scale(dy, c.bond_length, d);
    }
    assert forall|l: int| 0 <= l < s1.particles.len() implies #[trigger] particle_struct_wf(
        s1,
        l,
    ) by {
        assert(particle_struct_wf(s, l));
    }
    assert forall|l: int| 0 <= l < s1.bonds.len() implies #[trigger] bond_wf(s1, l) by {
        assert(bond_wf(s, l));
    }
    assert(bonds_neutralized(s1)) by {
        assert forall|l: int|
            0 <= l < s1.bonds.len() implies #[trigger] s1.particles[s1.bonds[l].a].charge == 0
            || s1.particles[s1.bonds[l].b].charge == 0 by {
            assert(bond_wf(s, l));
            assert(s.particles[s.bonds[l].a].charge == 0 || s.particles[s.bonds[l].b].charge == 0);
        }
    }
    assert(bonds_distinct(s1)) by {
        assert forall|k1: int, k2: int| 0 <= k1 < k2 < s1.bonds.len() implies !(
        #[trigger] s1.bonds[k1].a == #[trigger] s1.bonds[k2].a && s1.bonds[k1].b
            == s1.bonds[k2].b) by {
            assert(!(s.bonds[k1].a == s.bonds[k2].a && s.bonds[k1].b == s.bonds[k2].b));
        }
    }
}

/// The integrator's result respects the resting bounds: the position ends
/// within the inset plane, the velocity within the damping growth of the
/// speed cap.
pub proof fn lemma_integrate_props(c: CfgS, px: int, py: int, vx: int, vy: int, dt: int)
    requires
        cfg_wf(c),
        0 <= dt <= MAX_TICK_MILLIS as int,
    ensures
        ({
            let q = integrate_vals(c, px, py, vx, vy, dt);
            &&& mag(q.0) <= c.half_x + POS_SLACK as int
            &&& mag(q.1) <= c.half_y + POS_SLACK as int
            &&& mag(q.2) <= VEL_LIMIT as int
            &&& mag(q.3) <= VEL_LIMIT as int
        }),
{
    let v2 = clamp_speed(vx, vy, c.max_speed);
    let s2 = vx * vx + vy * vy;
    assert(vx * vx <= s2 && vy * vy <= s2 && s2 >= 0) by (nonlinear_arith)
        requires
            s2 == vx * vx + vy * vy,
    ;
    if s2 > c.max_speed * c.max_speed {
        let d = sqrt_ceil(s2);
        lemma_sqrt_floor(s2);
        assert(d >= 1) by {
            if sqrt_floor(s2) == 0 {
                let f = sqrt_floor(s2);
                assert((f + 1) * (f + 1) == 1) by (nonlinear_arith)
                    requires
                        f == 0,
                ;
                assert(c.max_speed * c.max_speed >= 1) by (nonlinear_arith)
                    requires
                        c.max_speed >= 1,
                ;
            }
        }
        assert(d * d >= s2) by {
            let f = sqrt_floor(s2);
            if f * f != s2 {
                assert(d == f + 1);
            }
        }
        lemma_root_le(vx, d);
        lemma_root_le(vy, d);
        lemma_div_t_scale(vx, c.max_speed, d);
        lemma_div_t_scale(vy, c.max_speed, d);
    } else {
        assert(vx * vx <= c.max_speed * c.max_speed);
        lemma_root_le(vx, c.max_speed);
        lemma_root_le(vy, c.max_speed);
    }
    assert(mag(v2.0) <= c.max_speed && mag(v2.1) <= c.max_speed);
    let k = (FRICTION_ONE as int - c.friction) * dt;
    assert(0 <= k <= 1_000_000_000) by (nonlinear_arith)
        requires
            0 <= FRICTION_ONE as int - c.friction <= 1000,
            0 <= dt <= 1_000_000,
            k == (FRICTION_ONE as int - c.friction) * dt,
    ;
    let vx3 = damp(v2.0, k);
    let vy3 = damp(v2.1, k);
    lemma_mag_mul_le(v2.0, k, 10_000_000, 1_000_000_000);
    lemma_mag_mul_le(v2.1, k, 10_000_000, 1_000_000_000);
    lemma_div_t_mag(v2.0 * k, FRICTION_DENOM as int);
    lemma_div_t_mag(v2.1 * k, FRICTION_DENOM as int);
    assert(mag(vx3) <= 10_010_000_000 && mag(vy3) <= 10_010_000_000);
    let px1 = px + div_t(vx3 * dt, DT_SCALE as int);
    let py1 = py + div_t(vy3 * dt, DT_SCALE as int);
    let r1 = reflect_axis(px1, vx3, c.half_x, c.radius);
    let r2 = reflect_axis(py1, vy3, c.half_y, c.radius);
    assert(mag(r1.0) <= c.half_x - c.radius);
    assert(mag(r2.0) <= c.half_y - c.radius);
    assert(mag(r1.1) == mag(vx3) && mag(r2.1) == mag(vy3));
}

/// With distinct bonded pairs over `n` particles there can be no more than
/// `n * n` bonds.
pub proof fn lemma_bonds_count(s: SimS)
    requires
        bonds_distinct(s),
        forall|k: int| 0 <= k < s.bonds.len() ==> #[trigger] bond_wf(s, k),
    ensures
        s.bonds.len() <= s.particles.len() * s.particles.len(),
{
    let n = s.particles.len() as int;
    let m = s.bonds.len() as int;
    let encs = Seq::new(m as nat, |k: int| s.bonds[k].a * n + s.bonds[k].b);
    assert forall|k1: int, k2: int|
        0 <= k1 < m && 0 <= k2 < m && k1 != k2 implies encs[k1] != encs[k2] by {
        assert(bond_wf(s, k1));
        assert(bond_wf(s, k2));
        let a1 = s.bonds[k1].a;
        let b1 = s.bonds[k1].b;
        let a2 = s.bonds[k2].a;
        let b2 = s.bonds[k2].b;
        if encs[k1] == encs[k2] {
            lemma_fundamental_div_mod_converse(a1 * n + b1, n, a1, b1);
            lemma_fundamental_div_mod_converse(a2 * n + b2, n, a2, b2);
            assert(a1 == a2 && b1 == b2);
        }
    }
    assert(encs.no_duplicates());
    encs.unique_seq_to_set();
    assert forall|x: int| encs.to_set().contains(x) implies set_int_range(0, n * n).contains(
        x,
    ) by {
        let k = choose|k: int| 0 <= k < encs.len() && encs[k] == x;
        assert(bond_wf(s, k));
        let ak = s.bonds[k].a;
        let bk = s.bonds[k].b;
        assert(0 <= ak * n + bk < n * n) by (nonlinear_arith)
            requires
                0 <= ak < n,
                0 <= bk < n,
        ;
    }
    lemma_int_range(0, n * n);
    lemma_len_subset(encs.to_set(), set_int_range(0, n * n));
}

} // verus!
