//! What the generators of network code decide.
pub mod driver;
pub mod message;
