//! Verified core of the Silicon Music desktop client: cookie-jar handling,
//! account bookkeeping, session-renewal scheduling and the small validators
//! the local stream server and the Spotify sign-in rely on.

pub mod text;
pub mod jar;
pub mod merge;
pub mod auth;
pub mod power;
pub mod spotify;
pub mod session;
pub mod cache;
pub mod accounts;
