//! `cdeez`: a "jump to remembered directory" resolver.
//!
//! Given a short fragment typed by a user, the library finds an absolute
//! directory path in a persisted history of previously visited directories
//! and keeps that history self-correcting. The crate is organised in four
//! layers: a record codec (one location per text line), a location store
//! (whole-database load and save), a resolver (a pure matching engine over a
//! snapshot of filesystem facts), and a session (the single mutation applied
//! per invocation). `ascii` and `text` hold the shared character machinery,
//! and `laws` states and proves the crate-wide guarantees: the store
//! round-trips, re-resolution is idempotent, matching respects segment
//! boundaries, ties break on stored order and never on counts, self-healing
//! prunes exactly the dead record, and the probe set is all the resolver
//! ever asks of the filesystem.
//!
//! All filesystem probing is done by the caller, which hands the results in
//! as plain values, so every rule in here is verified.

pub mod ascii;
pub mod codec;
pub mod laws;
pub mod resolver;
pub mod session;
pub mod store;
pub mod text;
