//! Core of a small "in case of emergency" mail scheduler: records carrying a
//! message and recipients, an arm/disarm lifecycle with future-date
//! validation, and a whole-collection persistent store with a verified
//! round-tripping text format.

pub mod errors;
pub mod text;
pub mod stamp;
pub mod ice;
pub mod codec;
pub mod store;
