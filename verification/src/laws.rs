//! What the library promises as a whole.

pub mod address;
pub mod exchange;
pub mod identity;
pub mod retrieval;
pub mod source;
pub mod text;
