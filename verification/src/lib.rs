//! A verified core for a small distributed blob-store master: placement of
//! keys on replicated volume servers, the per-key metadata record codec, the
//! key-indexed metadata store and lock table, and the request coordinator's
//! decisions. Remote HTTP traffic itself stays outside this crate.
pub mod digest;
pub mod hash;
pub mod record;
pub mod index;
pub mod lock;
pub mod listing;
pub mod mkv;
