//! A single-user credential vault: fields sealed in two-layer envelopes under a
//! master password, a dense table of entries, and password plus one-time-code
//! authentication.
pub mod envelope;
pub mod primitives;
pub mod store;
pub mod auth;
pub mod text;
