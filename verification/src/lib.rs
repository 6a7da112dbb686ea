//! Passive reconstruction of replay download requests from captured traffic.

pub mod bytes;
pub mod delivery;
pub mod error;
pub mod http;
pub mod ingestion_cache;
pub mod listener;
pub mod packet;
pub mod salts;
pub mod scan_cache;
pub mod statlocker;
pub mod steam_user;
pub mod stream;
pub mod text;
