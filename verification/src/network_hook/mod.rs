//! Messages that go out on the network bus.

pub mod message;
pub mod telemetry_client;
pub mod zenoh_bus;
