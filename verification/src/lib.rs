//! Core of the SONNY robot microkernel.

pub mod boot;
pub mod chaos;
pub mod diagnostics;
pub mod io_bridge;
pub mod json;
pub mod math_utils;
pub mod mocks;
pub mod network_hook;
pub mod numeric;
pub mod registry;
pub mod ros2_bridge;
pub mod system;
pub mod text;
