//! Validation and synchronization of `.env`-style key/value files, with
//! key-scoped encryption support.
//!
//! The library works on file *contents* handed in as byte slices; reading and
//! writing files, and running the external encryption program, are left to
//! the caller. `diff` holds validation and synchronization, `envmap` the
//! parser and its mapping model, `rewrite` the line rewriter, `secure` the
//! key-scoped encryption orchestration, and `recipient` the recipient
//! resolution rule.

pub mod diff;
pub mod envmap;
pub mod errors;
pub mod recipient;
pub mod rewrite;
pub mod secure;
pub mod text;
