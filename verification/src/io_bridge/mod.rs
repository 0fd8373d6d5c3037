//! The bridge between the controller and the hardware.

pub mod adapters;
pub mod command_vector;
pub mod failsafe;
pub mod fieldbus;
pub mod fieldbus_loop;
pub mod hal_loader;
pub mod hardware_abstraction;
pub mod jerk_laws;
pub mod jerk_limiter;
pub mod jerk_progress;
pub mod robot_brand;
pub mod state_vector;
pub mod vector_sanitizer;
pub mod watchdog_timer;
pub mod wire;
