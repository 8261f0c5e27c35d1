//! Persistence and access rules of a small body-weight logging service.
//!
//! Measurements are kept in an ordered key/value store, one entry per date
//! and time. Anyone may list them, and each listing is counted; storing and
//! clearing ask for a token.

pub mod counter;
pub mod decimal;
pub mod gate;
pub mod handlers;
pub mod laws;
pub mod record;
pub mod store;
pub mod text;
pub mod weight;
