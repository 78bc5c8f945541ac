//! A discrete-time simulation of charged point particles on a bounded
//! two-dimensional plane.
//!
//! Particles carry a signed integer charge and a fixed mass equal to the
//! magnitude of their charge at spawn time.  Each tick runs three stages in
//! strict order: the interaction resolver (pairwise forces, collisions and
//! bond formation), the bond constraint solver (rigid bond length), and the
//! integrator (speed clamp, friction damping, Euler integration and boundary
//! reflection, so every tick ends with the population inside the plane).
//!
//! All geometry is carried in fixed-point coordinates: one spatial unit is
//! `SCALE` sub-units, and every quantity is an integer count of sub-units.

pub mod math;
pub mod components;
pub mod model;
pub mod sim;
pub mod laws;
