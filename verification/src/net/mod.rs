//! What two players send each other.

pub mod message;
