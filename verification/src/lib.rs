//! A tiered, in-process key/value cache engine with verified eviction rules,
//! and the components around it that share its flag vocabulary: the request
//! firewall, the plugin registry and the metrics codec.

pub mod bytes;
pub mod cache;
pub mod observability;
pub mod plugins;
pub mod security;
pub mod text;
pub mod time;
