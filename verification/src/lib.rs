//! Scan positions for a pan/tilt camera mount that sweep the upper hemisphere.
//!
//! Angles are exact rationals ([`Angle`]), distances are compared by their
//! squares, and the cosine of each ring's elevation is handed in by the caller,
//! so that every rule of the enumeration is integer arithmetic.

pub mod types;
pub mod convert;
pub mod sampler;
pub mod order;
pub mod locate;
pub mod scanner;

pub use types::{Angle, MotorSteps, ScanError};
pub use convert::{motor_to_rad, rad_to_motor, step_of_angle};
pub use sampler::{
    azimuth_count, ring_count, ring_elevations, ring_step_size, sample_rings, RADIUS_SCALE,
};
pub use locate::{calculate_distance_squared, nearest_index};
pub use order::{snake_rings, sort_ring_major};
pub use scanner::ScannerEnumerator;
