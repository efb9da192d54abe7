//! What the server reports about itself.

pub mod metrics;
