//! Skills that run beside the control loop.

pub mod wasm_runner;
