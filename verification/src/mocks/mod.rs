//! Stand-ins for real hardware.

pub mod virtual_hardware_mock;
