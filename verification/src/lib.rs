//! Trustless retrieval of content-addressed data, and the endpoint that serves it.

pub mod address;
pub mod cipher;
pub mod data_map;
pub mod endpoint;
pub mod error;
pub mod identity;
pub mod laws;
pub mod progress;
pub mod protocol;
pub mod retrieval;
pub mod source;
pub mod store;
pub mod text;
