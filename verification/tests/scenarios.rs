//! Scenario tests: whole ticks on small, hand-computed layouts.
//! Coordinates are fixed-point: 1000 sub-units per unit.

use particle_sim::components::Config;
use particle_sim::math::Vec2;
use particle_sim::sim::{Simulation, integrate_particle, bond_reposition};

fn arena_config(friction: i64) -> Config {
    // The defaults: particle radius 3, bond rest length 12, speed cap 100.
    let cfg = Config::new(640_000, 360_000, friction);
    assert_eq!(cfg.particle_radius, 3000);
    assert_eq!(cfg.bond_length, 12_000);
    assert_eq!(cfg.max_speed, 100_000);
    cfg
}

#[test]
fn bonding_on_contact() {
    // Two particles with group radii 50, charges +2 and -1, placed 4 units
    // apart: within the collision threshold of 6 units, so one tick bonds
    // them with c_bond = min(2, 1) = 1 and charges end at +1 and 0.
    let mut sim = Simulation::new(arena_config(1000));
    let ga = sim.add_group(String::from("alpha"), 50_000, 2);
    let gb = sim.add_group(String::from("beta"), 50_000, -1);
    let a = sim.spawn_particle(ga, Vec2 { x: 0, y: 0 });
    let b = sim.spawn_particle(gb, Vec2 { x: 4000, y: 0 });
    sim.tick(16);
    assert_eq!(sim.bond_count(), 1);
    let bond = sim.bond(0);
    assert_eq!(bond.particle_a, a);
    assert_eq!(bond.particle_b, b);
    assert_eq!(bond.c_bond, 1);
    assert_eq!(sim.particle(a).charge.0, 1);
    assert_eq!(sim.particle(b).charge.0, 0);
    // The pre-tick velocities were zero, and the elastic bounce inverted
    // them, so they are still exactly zero.
    assert_eq!(sim.particle(a).velocity.0, Vec2 { x: 0, y: 0 });
    assert_eq!(sim.particle(b).velocity.0, Vec2 { x: 0, y: 0 });
    // The bond constraint solver then placed the lighter endpoint exactly
    // one rest length from the heavier one, on its own side.
    assert_eq!(sim.particle(a).position, Vec2 { x: 0, y: 0 });
    assert_eq!(sim.particle(b).position, Vec2 { x: 12_000, y: 0 });
    assert_eq!(bond.placement.length, 4000);
    assert_eq!(bond.placement.midpoint, Vec2 { x: 6000, y: 0 });
    assert_eq!(bond.placement.direction, Vec2 { x: -4000, y: 0 });
    // The bond ids appear in both endpoints' lists.
    assert_eq!(sim.bonds_of(a), vec![0]);
    assert_eq!(sim.bonds_of(b), vec![0]);
    // A second tick must not bond the pair again (one endpoint was
    // neutralized), and a pair already at the rest length is a fixed
    // point of the solver: nothing moves.
    sim.tick(16);
    assert_eq!(sim.bond_count(), 1);
    assert_eq!(sim.particle(a).charge.0, 1);
    assert_eq!(sim.particle(b).charge.0, 0);
    assert_eq!(sim.particle(a).position, Vec2 { x: 0, y: 0 });
    assert_eq!(sim.particle(b).position, Vec2 { x: 12_000, y: 0 });
}

#[test]
fn boundary_reflection() {
    // A particle at x = 639 with extents 1280 x 720 and velocity 50 to the
    // right: the Euler step of 16 ms carries it to 639.8, past the
    // half-extent of 640 inset by the radius of 3, so it ends clamped to
    // exactly 640 - 3 = 637 with its x velocity negated.
    let cfg = arena_config(1000);
    let (pos, vel) = integrate_particle(
        &cfg,
        Vec2 { x: 639_000, y: 0 },
        Vec2 { x: 50_000, y: 0 },
        16,
    );
    assert_eq!(vel, Vec2 { x: -50_000, y: 0 });
    assert_eq!(pos, Vec2 { x: 637_000, y: 0 });
}

#[test]
fn bond_solver_repositions_lighter_endpoint() {
    // A bonded pair with masses 2 and 5, rest length 12, currently 20
    // apart: the mass-2 endpoint is placed exactly 12 units from the
    // mass-5 endpoint along the prior direction; the heavier one does not
    // move.
    let cfg = arena_config(1000);
    let (pos_a, pos_b) = bond_reposition(
        &cfg,
        Vec2 { x: 20_000, y: 0 },
        Vec2 { x: 0, y: 0 },
        2,
        5,
    );
    assert_eq!(pos_a, Vec2 { x: 12_000, y: 0 });
    assert_eq!(pos_b, Vec2 { x: 0, y: 0 });
}

#[test]
fn long_range_force_is_exact() {
    // Charges +2 and -1 at 10 units apart, both group radii 50: the force
    // scalar is -(|+2| + |+2|) * sign(+2) * sign(-1) = 4, and both sides
    // are scaled by A's mass.  One tick with no damping gives velocities
    // of exactly -/+ 4 units per second and a first Euler step of 64
    // sub-units.
    let mut sim = Simulation::new(arena_config(1000));
    let ga = sim.add_group(String::from("alpha"), 50_000, 2);
    let gb = sim.add_group(String::from("beta"), 50_000, -1);
    let a = sim.spawn_particle(ga, Vec2 { x: 0, y: 0 });
    let b = sim.spawn_particle(gb, Vec2 { x: 10_000, y: 0 });
    sim.tick(16);
    assert_eq!(sim.bond_count(), 0);
    assert_eq!(sim.particle(a).velocity.0, Vec2 { x: 4000, y: 0 });
    assert_eq!(sim.particle(b).velocity.0, Vec2 { x: -4000, y: 0 });
    assert_eq!(sim.particle(a).position, Vec2 { x: 64, y: 0 });
    assert_eq!(sim.particle(b).position, Vec2 { x: 9936, y: 0 });
    // Charges only change on bonding.
    assert_eq!(sim.particle(a).charge.0, 2);
    assert_eq!(sim.particle(b).charge.0, -1);
}

#[test]
fn force_respects_interaction_radii() {
    // The kick on B is gated by A's group radius and the kick on A by B's.
    // With B's radius too small to reach 10 units, A receives no kick
    // while B still does.
    let mut sim = Simulation::new(arena_config(1000));
    let ga = sim.add_group(String::from("wide"), 50_000, 2);
    let gb = sim.add_group(String::from("narrow"), 5_000, -1);
    let a = sim.spawn_particle(ga, Vec2 { x: 0, y: 0 });
    let b = sim.spawn_particle(gb, Vec2 { x: 10_000, y: 0 });
    sim.tick(16);
    assert_eq!(sim.particle(a).velocity.0, Vec2 { x: 0, y: 0 });
    assert_eq!(sim.particle(b).velocity.0, Vec2 { x: -4000, y: 0 });
}

#[test]
fn deep_overlap_is_separated() {
    // Two like-charged particles 2 units apart (inside one particle
    // radius): each is moved by the unnormalized direction scaled by the
    // radius in units — A against it, B along it — so the endpoints pass
    // each other and end five direction-lengths apart; no bond forms.
    let mut sim = Simulation::new(arena_config(1000));
    let g = sim.add_group(String::from("alpha"), 50_000, 1);
    let a = sim.spawn_particle(g, Vec2 { x: 2000, y: 0 });
    let b = sim.spawn_particle(g, Vec2 { x: 0, y: 0 });
    sim.tick(16);
    assert_eq!(sim.bond_count(), 0);
    assert_eq!(sim.particle(a).position, Vec2 { x: -4000, y: 0 });
    assert_eq!(sim.particle(b).position, Vec2 { x: 6000, y: 0 });
}

#[test]
fn collision_inverts_velocities() {
    // Two oppositely charged particles attract, accelerate toward each
    // other, and eventually collide; the tick in which the bond forms
    // inverts both velocities relative to the start of that tick.
    let mut sim = Simulation::new(arena_config(1000));
    let ga = sim.add_group(String::from("alpha"), 50_000, 2);
    let gb = sim.add_group(String::from("beta"), 50_000, -1);
    let a = sim.spawn_particle(ga, Vec2 { x: 0, y: 0 });
    let b = sim.spawn_particle(gb, Vec2 { x: 10_000, y: 0 });
    let mut bonded_tick_found = false;
    for _ in 0..400 {
        let va = sim.particle(a).velocity.0;
        let vb = sim.particle(b).velocity.0;
        sim.tick(16);
        if sim.bond_count() == 1 {
            assert_eq!(sim.particle(a).velocity.0, Vec2 { x: -va.x, y: -va.y });
            assert_eq!(sim.particle(b).velocity.0, Vec2 { x: -vb.x, y: -vb.y });
            bonded_tick_found = true;
            break;
        }
    }
    assert!(bonded_tick_found);
}

#[test]
fn speed_clamp_scales_onto_the_cap() {
    // A velocity of (300, 400) has magnitude 500, five times the cap of
    // 100: the clamp scales it to exactly (60, 80).
    let cfg = arena_config(1000);
    let (pos, vel) = integrate_particle(
        &cfg,
        Vec2 { x: 0, y: 0 },
        Vec2 { x: 300_000, y: 400_000 },
        16,
    );
    assert_eq!(vel, Vec2 { x: 60_000, y: 80_000 });
    assert_eq!(pos, Vec2 { x: 960, y: 1280 });
}

#[test]
fn full_friction_stops_in_one_second() {
    // Friction 0 means full stop per second of tick time: with dt equal to
    // one second the damping term removes the whole velocity.
    let cfg = arena_config(0);
    let (pos, vel) = integrate_particle(
        &cfg,
        Vec2 { x: 0, y: 0 },
        Vec2 { x: 50_000, y: -20_000 },
        1000,
    );
    assert_eq!(vel, Vec2 { x: 0, y: 0 });
    assert_eq!(pos, Vec2 { x: 0, y: 0 });
}

#[test]
fn bond_solver_tie_repositions_first_endpoint() {
    // Equal masses: B stays fixed, A is repositioned.
    let cfg = arena_config(1000);
    let (pos_a, pos_b) = bond_reposition(
        &cfg,
        Vec2 { x: 0, y: 20_000 },
        Vec2 { x: 0, y: 0 },
        3,
        3,
    );
    assert_eq!(pos_a, Vec2 { x: 0, y: 12_000 });
    assert_eq!(pos_b, Vec2 { x: 0, y: 0 });
}

#[test]
fn bond_solver_skips_subunit_separations() {
    // Endpoints less than one unit apart cannot yield a usable direction
    // in fixed point: the solver leaves them untouched.
    let cfg = arena_config(1000);
    let (pos_a, pos_b) = bond_reposition(
        &cfg,
        Vec2 { x: 500, y: 0 },
        Vec2 { x: 0, y: 0 },
        1,
        5,
    );
    assert_eq!(pos_a, Vec2 { x: 500, y: 0 });
    assert_eq!(pos_b, Vec2 { x: 0, y: 0 });
}

#[test]
fn equal_charges_neutralize_both() {
    // Charges +2 and -2 bond with c_bond = 2 and both end at zero.
    let mut sim = Simulation::new(arena_config(1000));
    let ga = sim.add_group(String::from("alpha"), 50_000, 2);
    let gb = sim.add_group(String::from("beta"), 50_000, -2);
    let a = sim.spawn_particle(ga, Vec2 { x: 0, y: 0 });
    let b = sim.spawn_particle(gb, Vec2 { x: 4000, y: 0 });
    sim.tick(16);
    assert_eq!(sim.bond_count(), 1);
    assert_eq!(sim.bond(0).c_bond, 2);
    assert_eq!(sim.particle(a).charge.0, 0);
    assert_eq!(sim.particle(b).charge.0, 0);
}

#[test]
fn extreme_charge_spawns_with_mass_128() {
    let mut sim = Simulation::new(arena_config(600));
    let g = sim.add_group(String::from("heavy"), 50_000, -128);
    let p = sim.spawn_particle(g, Vec2 { x: 0, y: 0 });
    assert_eq!(sim.particle(p).charge.0, -128);
    assert_eq!(sim.particle(p).mass, 128);
    sim.tick(16);
    assert_eq!(sim.particle(p).mass, 128);
}

#[test]
fn zero_dt_is_a_no_op() {
    let mut sim = Simulation::new(arena_config(600));
    let g = sim.add_group(String::from("alpha"), 50_000, 2);
    let a = sim.spawn_particle(g, Vec2 { x: 1234, y: -555 });
    sim.tick(0);
    assert_eq!(sim.particle(a).position, Vec2 { x: 1234, y: -555 });
    assert_eq!(sim.particle(a).velocity.0, Vec2 { x: 0, y: 0 });
    assert_eq!(sim.particle(a).charge.0, 2);
    assert_eq!(sim.bond_count(), 0);
}

#[test]
fn spawn_fixes_mass_to_charge_magnitude() {
    let mut sim = Simulation::new(arena_config(600));
    let g1 = sim.add_group(String::from("deep"), 50_000, -6);
    let g2 = sim.add_group(String::from("flat"), 50_000, 0);
    let p1 = sim.spawn_particle(g1, Vec2 { x: 0, y: 0 });
    let p2 = sim.spawn_particle(g2, Vec2 { x: 5000, y: 5000 });
    assert_eq!(sim.particle(p1).charge.0, -6);
    assert_eq!(sim.particle(p1).mass, 6);
    assert_eq!(sim.particle(p2).charge.0, 0);
    assert_eq!(sim.particle(p2).mass, 0);
    assert_eq!(sim.group(g1).name, "deep");
    assert_eq!(sim.group(g1).radius, 50_000);
    assert_eq!(sim.group(g1).base_charge, -6);
}
