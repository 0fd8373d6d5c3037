//! Conversion of foreign topics.

pub mod topic_converter;
