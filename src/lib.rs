//! Decision core of a single-threaded readiness reactor: token allocation,
//! classification of readiness events, the non-blocking drain loops, and the
//! connection table that gates reclamation on in-flight work.

pub mod allocator;
pub mod events;
pub mod table;
