//! Concrete instances of the simulation's laws: mass constancy, charge
//! monotonicity, bond uniqueness, boundary containment, the speed bound,
//! and determinism across whole runs.

use particle_sim::components::Config;
use particle_sim::math::Vec2;
use particle_sim::sim::Simulation;

fn busy_sim(friction: i64) -> Simulation {
    let mut sim = Simulation::new(Config {
        half_x: 100_000,
        half_y: 80_000,
        friction,
        particle_radius: 3000,
        bond_length: 12_000,
        max_speed: 100_000,
    });
    let red = sim.add_group(String::from("red"), 50_000, -1);
    let blue = sim.add_group(String::from("blue"), 50_000, 1);
    let green = sim.add_group(String::from("green"), 50_000, 2);
    let yellow = sim.add_group(String::from("yellow"), 50_000, -6);
    let mut x: i64 = -90_000;
    let mut salt: i64 = 7;
    for step in 0..24 {
        let group = match step % 4 {
            0 => red,
            1 => blue,
            2 => green,
            _ => yellow,
        };
        let y = (salt % 70_000) - 35_000;
        sim.spawn_particle(group, Vec2 { x, y });
        x += 7800;
        salt = (salt * 31 + 17) % 140_000;
    }
    sim
}

#[test]
fn masses_never_change() {
    let mut sim = busy_sim(600);
    let before: Vec<u8> = (0..sim.particle_count()).map(|i| sim.particle(i).mass).collect();
    for _ in 0..60 {
        sim.tick(16);
    }
    for i in 0..sim.particle_count() {
        assert_eq!(sim.particle(i).mass, before[i]);
    }
}

#[test]
fn charge_magnitudes_never_grow() {
    let mut sim = busy_sim(600);
    let n = sim.particle_count();
    let mut prev: Vec<i32> = (0..n).map(|i| (sim.particle(i).charge.0 as i32).abs()).collect();
    for _ in 0..60 {
        sim.tick(16);
        for i in 0..n {
            let now = (sim.particle(i).charge.0 as i32).abs();
            assert!(now <= prev[i]);
            prev[i] = now;
        }
    }
}

#[test]
fn bonds_join_distinct_particles_once() {
    let mut sim = busy_sim(600);
    for _ in 0..120 {
        sim.tick(16);
    }
    let m = sim.bond_count();
    assert!(m > 0);
    for k in 0..m {
        let b = sim.bond(k);
        assert!(b.particle_a < b.particle_b);
        assert!(b.c_bond > 0);
        // One endpoint of every bond was neutralized when it formed.
        let ca = sim.particle(b.particle_a).charge.0;
        let cb = sim.particle(b.particle_b).charge.0;
        assert!(ca == 0 || cb == 0);
        for l in 0..k {
            let other = sim.bond(l);
            assert!(!(other.particle_a == b.particle_a && other.particle_b == b.particle_b));
        }
    }
}

#[test]
fn bond_transfer_conserves_charge() {
    // Whenever a tick creates bonds, each new bond's transferred charge
    // equals the drop in both endpoints' charge magnitudes.
    let mut sim = busy_sim(600);
    let n = sim.particle_count();
    for _ in 0..120 {
        let before: Vec<i32> = (0..n).map(|i| (sim.particle(i).charge.0 as i32).abs()).collect();
        let bonds_before = sim.bond_count();
        sim.tick(16);
        // Each particle's charge magnitude dropped by exactly the sum of
        // the transfers of the bonds it gained this tick.
        let mut transferred = vec![0i32; n];
        for k in bonds_before..sim.bond_count() {
            let b = sim.bond(k);
            transferred[b.particle_a] += b.c_bond as i32;
            transferred[b.particle_b] += b.c_bond as i32;
        }
        for i in 0..n {
            let drop = before[i] - (sim.particle(i).charge.0 as i32).abs();
            assert_eq!(drop, transferred[i]);
        }
    }
}

#[test]
fn positions_stay_contained() {
    let mut sim = busy_sim(600);
    let cfg = *sim.config();
    // Containment holds exactly: the half-extent inset by the radius.
    let bound_x = cfg.half_x - cfg.particle_radius;
    let bound_y = cfg.half_y - cfg.particle_radius;
    for _ in 0..120 {
        sim.tick(16);
        for i in 0..sim.particle_count() {
            let p = sim.particle(i).position;
            assert!(p.x.abs() <= bound_x && p.y.abs() <= bound_y);
        }
    }
}

#[test]
fn speed_stays_capped() {
    let mut sim = busy_sim(600);
    let vmax = sim.config().max_speed as i128;
    for _ in 0..120 {
        sim.tick(16);
        for i in 0..sim.particle_count() {
            let v = sim.particle(i).velocity.0;
            let s2 = (v.x as i128) * (v.x as i128) + (v.y as i128) * (v.y as i128);
            assert!(s2 <= vmax * vmax);
        }
    }
}

#[test]
fn identical_runs_agree() {
    let mut sim1 = busy_sim(600);
    let mut sim2 = busy_sim(600);
    for step in 0u64..80 {
        let dt = 10 + (step % 3) * 7;
        sim1.tick(dt);
        sim2.tick(dt);
    }
    assert_eq!(sim1.particle_count(), sim2.particle_count());
    assert_eq!(sim1.bond_count(), sim2.bond_count());
    for i in 0..sim1.particle_count() {
        assert_eq!(sim1.particle(i), sim2.particle(i));
    }
    for k in 0..sim1.bond_count() {
        assert_eq!(sim1.bond(k), sim2.bond(k));
    }
}
