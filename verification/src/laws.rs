//! The laws of the simulation, proved once and for all over the model:
//! mass constancy, charge monotonicity, bond charge conservation, absence
//! of self-bonds and of duplicate bonds, boundary containment, the speed
//! bound, and determinism of whole runs.

use vstd::prelude::*;
use crate::math::{
    mag, div_t, sqrt_floor, sqrt_ceil, lemma_sqrt_floor, lemma_sqrt_floor_unique, lemma_div_t_mag,
    lemma_div_t_multiple, lemma_mag_mul, lemma_clamp_sound,
};
use crate::components::{
    CfgS, SCALE, FRICTION_ONE, FRICTION_DENOM, DT_SCALE, MAX_TICK_MILLIS, PUSH_STEP, FORCE_STEP,
    BOND_LENGTH_MAX, HALF_EXTENT_MAX, POS_SLACK, VEL_LIMIT,
};
use crate::model::{
    SimS, cfg_wf, sim_wf, sim_struct_wf, particle_struct_wf, particle_coords_wf, coords_bounded,
    bond_wf, bonds_neutralized, bonds_distinct, min_i, charge_after, collide_step, pair_step,
    interact_from, interact_all, bond_step, bond_vals, bonds_from, bonds_all, reflect_axis,
    clamp_speed, damp,
    integrate_vals, integrate_one, integrate_all, tick_spec, run_spec, colliding, can_bond,
    pair_bonded,
    lemma_pair_step_props, lemma_bond_step_props, lemma_charge_after,
    lemma_integrate_props,
};

verus! {

/// Damping with a factor of at most one per tick never grows a velocity
/// component.
proof fn lemma_damp_shrinks(v: int, k: int)
    requires
        0 <= k <= FRICTION_DENOM as int,
    ensures
        mag(damp(v, k)) <= mag(v),
{
    let d = FRICTION_DENOM as int;
    let delta = div_t(v * k, d);
    lemma_div_t_mag(v * k, d);
    lemma_mag_mul(v, k);
    assert(mag(v) * mag(k) <= mag(v) * d) by (nonlinear_arith)
        requires
            0 <= mag(v),
            0 <= mag(k) <= d,
    ;
    assert(mag(delta) <= mag(v)) by (nonlinear_arith)
        requires
            mag(delta) * d <= mag(v) * d,
            d >= 1,
    ;
    if v >= 0 {
        assert(v * k >= 0) by (nonlinear_arith)
            requires
                v >= 0,
                k >= 0,
        ;
    } else {
        assert(v * k <= 0) by (nonlinear_arith)
            requires
                v <= 0,
                k >= 0,
        ;
    }
}

/// After the integrator, a particle sits within the half-extents inset by
/// the particle radius, whatever its starting position or velocity: the
/// boundary reflection runs after the Euler step.
pub proof fn lemma_integrate_contained(c: CfgS, px: int, py: int, vx: int, vy: int, dt: int)
    requires
        cfg_wf(c),
    ensures
        ({
            let q = integrate_vals(c, px, py, vx, vy, dt);
            &&& mag(q.0) <= c.half_x - c.radius
            &&& mag(q.1) <= c.half_y - c.radius
        }),
{
    let v2 = clamp_speed(vx, vy, c.max_speed);
    let k = (FRICTION_ONE as int - c.friction) * dt;
    let vx3 = damp(v2.0, k);
    let vy3 = damp(v2.1, k);
    let px1 = px + div_t(vx3 * dt, DT_SCALE as int);
    let py1 = py + div_t(vy3 * dt, DT_SCALE as int);
    assert(mag(reflect_axis(px1, vx3, c.half_x, c.radius).0) <= c.half_x - c.radius);
    assert(mag(reflect_axis(py1, vy3, c.half_y, c.radius).0) <= c.half_y - c.radius);
}

/// After the integrator, under damping that does not amplify — that is,
/// `(FRICTION_ONE - friction) * dt <= FRICTION_DENOM` — a particle's
/// squared speed is within the square of the maximum speed, and its
/// position within the inset half-extents.
pub proof fn lemma_integrate_final(c: CfgS, px: int, py: int, vx: int, vy: int, dt: int)
    requires
        cfg_wf(c),
        dt >= 0,
        (FRICTION_ONE as int - c.friction) * dt <= FRICTION_DENOM as int,
    ensures
        ({
            let q = integrate_vals(c, px, py, vx, vy, dt);
            &&& mag(q.0) <= c.half_x - c.radius
            &&& mag(q.1) <= c.half_y - c.radius
            &&& q.2 * q.2 + q.3 * q.3 <= c.max_speed * c.max_speed
        }),
{
    lemma_integrate_contained(c, px, py, vx, vy, dt);
    let m = c.max_speed;
    let v2 = clamp_speed(vx, vy, m);
    let s2 = vx * vx + vy * vy;
    assert(vx * vx <= s2 && vy * vy <= s2 && s2 >= 0) by (nonlinear_arith)
        requires
            s2 == vx * vx + vy * vy,
    ;
    if s2 > m * m {
        let d = sqrt_ceil(s2);
        lemma_sqrt_floor(s2);
        assert(d >= 1) by {
            let f = sqrt_floor(s2);
            if f == 0 {
                assert((f + 1) * (f + 1) == 1) by (nonlinear_arith)
                    requires
                        f == 0,
                ;
                assert(m * m >= 1) by (nonlinear_arith)
                    requires
                        m >= 1,
                ;
            }
        }
        assert(s2 <= d * d) by {
            let f = sqrt_floor(s2);
            if f * f != s2 {
                assert(d == f + 1);
            }
        }
        lemma_clamp_sound(vx, vy, m, d);
    }
    assert(v2.0 * v2.0 + v2.1 * v2.1 <= m * m);
    let k = (FRICTION_ONE as int - c.friction) * dt;
    assert(k >= 0) by (nonlinear_arith)
        requires
            FRICTION_ONE as int - c.friction >= 0,
            dt >= 0,
            k == (FRICTION_ONE as int - c.friction) * dt,
    ;
    let vx3 = damp(v2.0, k);
    let vy3 = damp(v2.1, k);
    lemma_damp_shrinks(v2.0, k);
    lemma_damp_shrinks(v2.1, k);
    assert(vx3 * vx3 <= v2.0 * v2.0 && vy3 * vy3 <= v2.1 * v2.1) by (nonlinear_arith)
        requires
            mag(vx3) <= mag(v2.0),
            mag(vy3) <= mag(v2.1),
            mag(vx3) == (if vx3 >= 0 { vx3 } else { -vx3 }),
            mag(vy3) == (if vy3 >= 0 { vy3 } else { -vy3 }),
            mag(v2.0) == (if v2.0 >= 0 { v2.0 } else { -v2.0 }),
            mag(v2.1) == (if v2.1 >= 0 { v2.1 } else { -v2.1 }),
    ;
    // The final velocity components are the damped ones, possibly negated
    // by the reflection; the negation keeps the squares.
    let q = integrate_vals(c, px, py, vx, vy, dt);
    assert(q.2 == vx3 || q.2 == -vx3);
    assert(q.3 == vy3 || q.3 == -vy3);
    assert(q.2 * q.2 == vx3 * vx3) by (nonlinear_arith)
        requires
            q.2 == vx3 || q.2 == -vx3,
    ;
    assert(q.3 * q.3 == vy3 * vy3) by (nonlinear_arith)
        requires
            q.3 == vy3 || q.3 == -vy3,
    ;
}

/// The interaction resolver, from any pair onward, preserves the
/// structural invariant, every particle's mass and group, every existing
/// bond, and only moves charges toward zero.
proof fn lemma_interact_from_preserves(c: CfgS, s: SimS, i: int, j: int, pb: int, vb: int)
    requires
        sim_struct_wf(c, s),
        coords_bounded(s, pb, vb),
        0 <= pb,
        0 <= vb,
    ensures
        ({
            let r = interact_from(c, s, i, j);
            &&& sim_struct_wf(c, r)
            &&& r.groups == s.groups
            &&& r.particles.len() == s.particles.len()
            &&& s.bonds.len() <= r.bonds.len()
            &&& forall|k: int| 0 <= k < s.bonds.len() ==> #[trigger] r.bonds[k] == s.bonds[k]
            &&& forall|k: int|
                0 <= k < s.particles.len() ==> #[trigger] r.particles[k].mass
                    == s.particles[k].mass && r.particles[k].group == s.particles[k].group && mag(
                    r.particles[k].charge,
                ) <= mag(s.particles[k].charge)
        }),
    decreases s.particles.len() - i, s.particles.len() - j,
{
    let n = s.particles.len() as int;
    if i < 0 || j <= i {
    } else if i >= n - 1 {
    } else if j >= n {
        lemma_interact_from_preserves(c, s, i + 1, i + 2, pb, vb);
    } else {
        lemma_pair_step_props(c, s, i, j, pb, vb);
        let s1 = pair_step(c, s, i, j);
        lemma_interact_from_preserves(
            c,
            s1,
            i,
            j + 1,
            pb + PUSH_STEP as int,
            vb + FORCE_STEP as int,
        );
    }
}

/// The bond constraint solver, from any bond onward, preserves the
/// structural invariant, every particle's charge, mass, group and
/// velocity, and every bond's endpoints and transferred charge.
proof fn lemma_bonds_from_preserves(c: CfgS, s: SimS, k: int, pb: int, vb: int)
    requires
        sim_struct_wf(c, s),
        0 <= pb,
        0 <= vb,
    ensures
        ({
            let r = bonds_from(c, s, k);
            &&& sim_struct_wf(c, r)
            &&& r.groups == s.groups
            &&& r.particles.len() == s.particles.len()
            &&& r.bonds.len() == s.bonds.len()
            &&& forall|l: int|
                0 <= l < s.bonds.len() ==> #[trigger] r.bonds[l].a == s.bonds[l].a && r.bonds[l].b
                    == s.bonds[l].b && r.bonds[l].c == s.bonds[l].c
            &&& forall|l: int|
                0 <= l < s.particles.len() ==> #[trigger] r.particles[l].mass
                    == s.particles[l].mass && r.particles[l].group == s.particles[l].group
                    && r.particles[l].charge == s.particles[l].charge && r.particles[l].vx
                    == s.particles[l].vx && r.particles[l].vy == s.particles[l].vy
        }),
    decreases s.bonds.len() - k,
{
    if k < 0 || k >= s.bonds.len() {
    } else {
        lemma_bond_step_props(c, s, k, pb, vb);
        let s1 = bond_step(c, s, k);
        lemma_bonds_from_preserves(c, s1, k + 1, pb + BOND_LENGTH_MAX as int, vb);
    }
}

/// The integrator preserves every particle's charge, mass and group, and
/// every bond.
proof fn lemma_integrate_all_preserves(c: CfgS, s: SimS, dt: int)
    ensures
        ({
            let r = integrate_all(c, s, dt);
            &&& r.groups == s.groups
            &&& r.bonds == s.bonds
            &&& r.particles.len() == s.particles.len()
            &&& forall|l: int|
                0 <= l < s.particles.len() ==> #[trigger] r.particles[l].mass
                    == s.particles[l].mass && r.particles[l].group == s.particles[l].group
                    && r.particles[l].charge == s.particles[l].charge
        }),
{
}

/// The resting coordinate bounds of a well-formed state, folded into the
/// single-bound form the stage lemmas use.
proof fn lemma_wf_coords(c: CfgS, s: SimS)
    requires
        sim_wf(c, s),
    ensures
        coords_bounded(s, (HALF_EXTENT_MAX + POS_SLACK) as int, VEL_LIMIT as int),
{
    assert forall|k: int|
        0 <= k < s.particles.len() implies {
        let p = #[trigger] s.particles[k];
        mag(p.px) <= (HALF_EXTENT_MAX + POS_SLACK) as int && mag(p.py) <= (HALF_EXTENT_MAX
            + POS_SLACK) as int && mag(p.vx) <= VEL_LIMIT as int && mag(p.vy) <= VEL_LIMIT as int
    } by {
        assert(particle_coords_wf(c, s, k));
    }
}

/// Mass invariant: a tick changes no particle's mass (nor its group), so a
/// particle's mass stays the magnitude of the charge it spawned with.
pub proof fn lemma_tick_preserves_mass(c: CfgS, s: SimS, dt: int)
    requires
        sim_wf(c, s),
    ensures
        tick_spec(c, s, dt).particles.len() == s.particles.len(),
        forall|i: int|
            0 <= i < s.particles.len() ==> #[trigger] tick_spec(c, s, dt).particles[i].mass
                == s.particles[i].mass && tick_spec(c, s, dt).particles[i].group
                == s.particles[i].group,
{
    if dt > 0 {
        lemma_wf_coords(c, s);
        let pb0 = (HALF_EXTENT_MAX + POS_SLACK) as int;
        let vb0 = VEL_LIMIT as int;
        lemma_interact_from_preserves(c, s, 0, 1, pb0, vb0);
        let s1 = interact_all(c, s);
        lemma_bonds_from_preserves(c, s1, 0, pb0, vb0);
        let s2 = bonds_all(c, s1);
        lemma_integrate_all_preserves(c, s2, dt);
    }
}

/// Charge monotonicity: a tick never grows the magnitude of any
/// particle's charge; bonding only moves it toward zero.
pub proof fn lemma_tick_charge_monotone(c: CfgS, s: SimS, dt: int)
    requires
        sim_wf(c, s),
    ensures
        tick_spec(c, s, dt).particles.len() == s.particles.len(),
        forall|i: int|
            0 <= i < s.particles.len() ==> mag(
                #[trigger] tick_spec(c, s, dt).particles[i].charge,
            ) <= mag(s.particles[i].charge),
{
    if dt > 0 {
        lemma_wf_coords(c, s);
        let pb0 = (HALF_EXTENT_MAX + POS_SLACK) as int;
        let vb0 = VEL_LIMIT as int;
        lemma_interact_from_preserves(c, s, 0, 1, pb0, vb0);
        let s1 = interact_all(c, s);
        lemma_bonds_from_preserves(c, s1, 0, pb0, vb0);
        let s2 = bonds_all(c, s1);
        lemma_integrate_all_preserves(c, s2, dt);
    }
}

/// Bond charge conservation: when a colliding pair with opposite non-zero
/// charges bonds, the new bond carries exactly the smaller charge
/// magnitude, and both endpoints' charges move by exactly that amount
/// toward zero — the smaller one to zero itself.
pub proof fn lemma_bond_charge_conservation(c: CfgS, s: SimS, i: int, j: int)
    requires
        sim_struct_wf(c, s),
        0 <= i < j < s.particles.len(),
        colliding(
            c,
            (s.particles[i].px - s.particles[j].px) * (s.particles[i].px - s.particles[j].px) + (
            s.particles[i].py - s.particles[j].py) * (s.particles[i].py - s.particles[j].py),
        ),
        can_bond(s.particles[i].charge, s.particles[j].charge),
    ensures
        ({
            let s1 = collide_step(c, s, i, j);
            let ca = s.particles[i].charge;
            let cb = s.particles[j].charge;
            let amt = min_i(mag(ca), mag(cb));
            &&& s1.bonds.len() == s.bonds.len() + 1
            &&& s1.bonds.last().a == i
            &&& s1.bonds.last().b == j
            &&& s1.bonds.last().c == amt
            &&& s1.particles[i].charge == charge_after(ca, amt)
            &&& s1.particles[j].charge == charge_after(cb, amt)
            &&& mag(s1.particles[i].charge) == mag(ca) - amt
            &&& mag(s1.particles[j].charge) == mag(cb) - amt
            &&& s1.particles[i].charge == 0 || s1.particles[j].charge == 0
        }),
{
    let ca = s.particles[i].charge;
    let cb = s.particles[j].charge;
    let amt = min_i(mag(ca), mag(cb));
    lemma_charge_after(ca, amt);
    lemma_charge_after(cb, amt);
}

/// A pair already at exactly the rest length is a fixed point of the bond
/// constraint solver's repositioning: the rigid constraint, once met, is
/// kept without moving either endpoint.
pub proof fn lemma_bond_rest_fixed_point(
    c: CfgS,
    pax: int,
    pay: int,
    pbx: int,
    pby: int,
    ma: int,
    mb: int,
)
    requires
        cfg_wf(c),
        c.bond_length >= SCALE as int,
        (pax - pbx) * (pax - pbx) + (pay - pby) * (pay - pby) == c.bond_length * c.bond_length,
    ensures
        bond_vals(c, pax, pay, pbx, pby, ma, mb) == (pax, pay, pbx, pby),
{
    let dx = pax - pbx;
    let dy = pay - pby;
    let d2 = dx * dx + dy * dy;
    let len = c.bond_length;
    assert((len + 1) * (len + 1) > len * len) by (nonlinear_arith)
        requires
            len >= 0,
    ;
    assert(d2 >= 0) by (nonlinear_arith)
        requires
            d2 == len * len,
            len >= 0,
    ;
    lemma_sqrt_floor_unique(d2, len);
    lemma_div_t_multiple(dx, len);
    lemma_div_t_multiple(dy, len);
}

/// A bonded pair never bonds again: forming the bond left one endpoint
/// with charge zero, so the bonding branch is closed to the pair for good,
/// and a bonded pair out of collision range is left entirely untouched by
/// the interaction resolver — the bond has removed the force interaction
/// between its endpoints.
pub proof fn lemma_bonded_pair_inert(c: CfgS, s: SimS, i: int, j: int)
    requires
        sim_struct_wf(c, s),
        0 <= i < j < s.particles.len(),
        pair_bonded(s, i, j),
    ensures
        pair_step(c, s, i, j).bonds == s.bonds,
        !colliding(
            c,
            (s.particles[i].px - s.particles[j].px) * (s.particles[i].px - s.particles[j].px) + (
            s.particles[i].py - s.particles[j].py) * (s.particles[i].py - s.particles[j].py),
        ) ==> pair_step(c, s, i, j) == s,
{
    let k = choose|k: int|
        0 <= k < s.bonds.len() && #[trigger] s.bonds[k].a == i && s.bonds[k].b == j;
    assert(s.particles[s.bonds[k].a].charge == 0 || s.particles[s.bonds[k].b].charge == 0);
    assert(!can_bond(s.particles[i].charge, s.particles[j].charge));
    let a = s.particles[i];
    let b = s.particles[j];
    let dx = a.px - b.px;
    let dy = a.py - b.py;
    let d2 = dx * dx + dy * dy;
    if colliding(c, d2) {
        let s1 = collide_step(c, s, i, j);
        assert(s1.bonds == s.bonds);
        assert(pair_bonded(s1, i, j)) by {
            assert(s1.bonds[k].a == i && s1.bonds[k].b == j);
        }
    } else {
        assert(pair_step(c, s, i, j) == s);
    }
}

/// No self-bond, and at most one bond per unordered pair: after any tick
/// every bond joins two distinct particles, stored lower index first, no
/// two bonds join the same pair, and the bonds that existed before the
/// tick are still there, unchanged in endpoints and transferred charge.
pub proof fn lemma_tick_bonds(c: CfgS, s: SimS, dt: int)
    requires
        sim_wf(c, s),
    ensures
        ({
            let r = tick_spec(c, s, dt);
            &&& s.bonds.len() <= r.bonds.len()
            &&& forall|k: int|
                0 <= k < r.bonds.len() ==> #[trigger] r.bonds[k].a < r.bonds[k].b
            &&& forall|k1: int, k2: int|
                0 <= k1 < k2 < r.bonds.len() ==> !(#[trigger] r.bonds[k1].a
                    == #[trigger] r.bonds[k2].a && r.bonds[k1].b == r.bonds[k2].b)
            &&& forall|k: int|
                0 <= k < s.bonds.len() ==> #[trigger] r.bonds[k].a == s.bonds[k].a && r.bonds[k].b
                    == s.bonds[k].b && r.bonds[k].c == s.bonds[k].c
        }),
{
    let r = tick_spec(c, s, dt);
    if dt > 0 {
        lemma_wf_coords(c, s);
        let pb0 = (HALF_EXTENT_MAX + POS_SLACK) as int;
        let vb0 = VEL_LIMIT as int;
        lemma_interact_from_preserves(c, s, 0, 1, pb0, vb0);
        let s1 = interact_all(c, s);
        lemma_bonds_from_preserves(c, s1, 0, pb0, vb0);
        let s2 = bonds_all(c, s1);
        lemma_integrate_all_preserves(c, s2, dt);
        assert forall|k: int| 0 <= k < r.bonds.len() implies #[trigger] r.bonds[k].a
            < r.bonds[k].b by {
            assert(bond_wf(s2, k));
        }
    } else {
        assert forall|k: int| 0 <= k < r.bonds.len() implies #[trigger] r.bonds[k].a
            < r.bonds[k].b by {
            assert(bond_wf(s, k));
        }
    }
}

/// Boundary containment: after any tick, no particle's position exceeds
/// the half-extent inset by the particle radius, on either axis.
pub proof fn lemma_tick_boundary(c: CfgS, s: SimS, dt: int)
    requires
        sim_wf(c, s),
        dt >= 1,
    ensures
        ({
            let r = tick_spec(c, s, dt);
            forall|i: int|
                0 <= i < r.particles.len() ==> mag(#[trigger] r.particles[i].px) <= c.half_x
                    - c.radius && mag(r.particles[i].py) <= c.half_y - c.radius
        }),
{
    let r = tick_spec(c, s, dt);
    let s2 = bonds_all(c, interact_all(c, s));
    assert forall|i: int|
        0 <= i < r.particles.len() implies mag(#[trigger] r.particles[i].px) <= c.half_x - c.radius
        && mag(r.particles[i].py) <= c.half_y - c.radius by {
        let p = s2.particles[i];
        lemma_integrate_contained(c, p.px, p.py, p.vx, p.vy, dt);
        assert(r.particles[i] == integrate_one(c, p, dt));
    }
}

/// Speed bound: after a tick whose damping does not amplify, every
/// particle's squared speed is within the square of the maximum speed.
pub proof fn lemma_tick_speed_bound(c: CfgS, s: SimS, dt: int)
    requires
        sim_wf(c, s),
        dt >= 1,
        (FRICTION_ONE as int - c.friction) * dt <= FRICTION_DENOM as int,
    ensures
        ({
            let r = tick_spec(c, s, dt);
            forall|i: int|
                0 <= i < r.particles.len() ==> #[trigger] r.particles[i].vx * r.particles[i].vx
                    + r.particles[i].vy * r.particles[i].vy <= c.max_speed * c.max_speed
        }),
{
    let r = tick_spec(c, s, dt);
    let s2 = bonds_all(c, interact_all(c, s));
    assert forall|i: int|
        0 <= i < r.particles.len() implies #[trigger] r.particles[i].vx * r.particles[i].vx
        + r.particles[i].vy * r.particles[i].vy <= c.max_speed * c.max_speed by {
        let p = s2.particles[i];
        lemma_integrate_final(c, p.px, p.py, p.vx, p.vy, dt);
        assert(r.particles[i] == integrate_one(c, p, dt));
    }
}

/// A tick preserves the whole-state invariant, at the level of the model:
/// the groundwork for laws about whole runs.
pub proof fn lemma_tick_preserves_wf(c: CfgS, s: SimS, dt: int)
    requires
        sim_wf(c, s),
        dt <= MAX_TICK_MILLIS as int,
    ensures
        sim_wf(c, tick_spec(c, s, dt)),
{
    if dt > 0 {
        lemma_wf_coords(c, s);
        let pb0 = (HALF_EXTENT_MAX + POS_SLACK) as int;
        let vb0 = VEL_LIMIT as int;
        lemma_interact_from_preserves(c, s, 0, 1, pb0, vb0);
        let s1 = interact_all(c, s);
        lemma_bonds_from_preserves(c, s1, 0, pb0, vb0);
        let s2 = bonds_all(c, s1);
        let r = integrate_all(c, s2, dt);
        lemma_integrate_all_preserves(c, s2, dt);
        assert forall|i: int| 0 <= i < r.particles.len() implies #[trigger] particle_struct_wf(
            r,
            i,
        ) by {
            assert(particle_struct_wf(s2, i));
        }
        assert forall|i: int| 0 <= i < r.particles.len() implies #[trigger] particle_coords_wf(
            c,
            r,
            i,
        ) by {
            let p = s2.particles[i];
            lemma_integrate_props(c, p.px, p.py, p.vx, p.vy, dt);
            assert(r.particles[i] == integrate_one(c, p, dt));
        }
        assert forall|k: int| 0 <= k < r.bonds.len() implies #[trigger] bond_wf(r, k) by {
            assert(bond_wf(s2, k));
        }
        assert(bonds_neutralized(r)) by {
            assert forall|k: int|
                0 <= k < r.bonds.len() implies #[trigger] r.particles[r.bonds[k].a].charge == 0
                || r.particles[r.bonds[k].b].charge == 0 by {
                assert(bond_wf(s2, k));
                assert(s2.particles[s2.bonds[k].a].charge == 0 || s2.particles[s2.bonds[k].b].charge
                    == 0);
            }
        }
        assert(bonds_distinct(r)) by {
            assert forall|k1: int, k2: int|
                0 <= k1 < k2 < r.bonds.len() implies !(#[trigger] r.bonds[k1].a
                == #[trigger] r.bonds[k2].a && r.bonds[k1].b == r.bonds[k2].b) by {
                assert(!(s2.bonds[k1].a == s2.bonds[k2].a && s2.bonds[k1].b == s2.bonds[k2].b));
            }
        }
    }
}

/// Mass invariant over whole runs: across any sequence of ticks, no
/// particle's mass (nor its group) ever changes, so it stays the magnitude
/// of the charge it spawned with.
pub proof fn lemma_run_preserves_mass(c: CfgS, s: SimS, dts: Seq<int>)
    requires
        sim_wf(c, s),
        forall|k: int| 0 <= k < dts.len() ==> #[trigger] dts[k] <= MAX_TICK_MILLIS as int,
    ensures
        sim_wf(c, run_spec(c, s, dts)),
        run_spec(c, s, dts).particles.len() == s.particles.len(),
        forall|i: int|
            0 <= i < s.particles.len() ==> #[trigger] run_spec(c, s, dts).particles[i].mass
                == s.particles[i].mass && run_spec(c, s, dts).particles[i].group
                == s.particles[i].group,
    decreases dts.len(),
{
    if dts.len() > 0 {
        lemma_tick_preserves_mass(c, s, dts[0]);
        lemma_tick_preserves_wf(c, s, dts[0]);
        let s1 = tick_spec(c, s, dts[0]);
        assert forall|k: int|
            0 <= k < dts.drop_first().len() implies #[trigger] dts.drop_first()[k]
            <= MAX_TICK_MILLIS as int by {
            assert(dts.drop_first()[k] == dts[k + 1]);
        }
        lemma_run_preserves_mass(c, s1, dts.drop_first());
    }
}

/// Charge monotonicity over whole runs: across any sequence of ticks, no
/// particle's charge magnitude ever grows.
pub proof fn lemma_run_charge_monotone(c: CfgS, s: SimS, dts: Seq<int>)
    requires
        sim_wf(c, s),
        forall|k: int| 0 <= k < dts.len() ==> #[trigger] dts[k] <= MAX_TICK_MILLIS as int,
    ensures
        sim_wf(c, run_spec(c, s, dts)),
        run_spec(c, s, dts).particles.len() == s.particles.len(),
        forall|i: int|
            0 <= i < s.particles.len() ==> mag(#[trigger] run_spec(c, s, dts).particles[i].charge)
                <= mag(s.particles[i].charge),
    decreases dts.len(),
{
    if dts.len() > 0 {
        lemma_tick_charge_monotone(c, s, dts[0]);
        lemma_tick_preserves_wf(c, s, dts[0]);
        let s1 = tick_spec(c, s, dts[0]);
        assert forall|k: int|
            0 <= k < dts.drop_first().len() implies #[trigger] dts.drop_first()[k]
            <= MAX_TICK_MILLIS as int by {
            assert(dts.drop_first()[k] == dts[k + 1]);
        }
        lemma_run_charge_monotone(c, s1, dts.drop_first());
    }
}

/// Determinism: the state after a run is a pure function of the initial
/// layout and the sequence of tick durations — two runs from equal states
/// through equal duration sequences end in equal states.
pub proof fn lemma_run_deterministic(c: CfgS, s1: SimS, s2: SimS, dts1: Seq<int>, dts2: Seq<int>)
    requires
        s1 == s2,
        dts1 == dts2,
    ensures
        run_spec(c, s1, dts1) == run_spec(c, s2, dts2),
{
}

} // verus!
