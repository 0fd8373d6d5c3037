//! A stress test that runs in memory.

pub mod chaos_test;
