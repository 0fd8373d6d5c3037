//! Health, timing and the operator's view.

pub mod atomic_health;
pub mod frequency_enforcer;
pub mod telemetry_logger;
pub mod terminal_ui;
