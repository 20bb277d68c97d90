//! The RC4 stream cipher, with its key schedule and keystream generator
//! proved against a mathematical model of the cipher state.

pub mod engine;
pub mod laws;
pub mod model;

pub use engine::{InvalidKeyError, Rc4};
