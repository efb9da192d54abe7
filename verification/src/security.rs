//! What stands between a request and the server.

pub mod waf;
