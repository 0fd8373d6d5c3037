//! Geometry.

pub mod kinematics_math;
pub mod length_laws;
pub mod rotation_laws;
pub mod vector_laws;
