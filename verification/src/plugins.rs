//! Plugins: the types and traits they are written against, the registry that
//! runs them, and two plugins that come with the server.

pub mod filter_example;
pub mod handler_example;
pub mod sdk;
