//! What the microkernel asks of the operating system.

pub mod clock;
pub mod rt_thread;
