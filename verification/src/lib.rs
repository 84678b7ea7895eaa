//! A consistent-hashing ring in the ketama style.
//!
//! Backends are registered with a weight, each registration contributes a
//! batch of virtual nodes derived from MD5 digests, and a lookup resolves a
//! 32-bit position to the backend owning the nearest virtual node at or after
//! it, wrapping around at the end of the ring.

pub mod digest;
pub mod hash;
pub mod laws;
pub mod ring;

pub use hash::bkdr;
pub use ring::Ketama;
