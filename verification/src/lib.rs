//! Verified core of a small image hosting service: API-key hashing and
//! checking, the records kept for users and images, and the summaries the
//! HTTP endpoints hand back.

pub mod api;
pub mod backend;
