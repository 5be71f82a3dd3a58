//! Client-side core of a line-oriented administrative protocol spoken by a
//! reverse proxy over a local socket: command encoding and response decoding.
//!
//! The crate renders typed commands into the exact ASCII text the remote
//! process expects and parses the textual responses (error counts,
//! access-control-list records and entries, socket listings, privilege
//! levels) into typed values. Opening sockets and moving bytes is left to
//! the caller.

pub mod addr;
pub mod commands;
pub mod errors;
pub mod models;
pub mod parsers;
pub mod requests;
pub mod responses;
pub mod text;
