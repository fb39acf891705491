//! A minimal authenticated file-browsing service core.
//!
//! The library holds the decision logic of the service: the path sanitizer,
//! the containment check, the directory-listing construction, the download
//! decision, and the shared-secret authentication gate. Every function here
//! is pure; the surrounding process performs the filesystem and HTTP work
//! and hands the observed values in.

pub mod api;
pub mod auth;
pub mod files;
pub mod shared;
