//! Request signing and request construction for the Bybit REST API.
//!
//! The crate turns a method, a path and a set of string parameters into a
//! fully described, signed HTTP request. Sending the request is left to the
//! caller.

pub mod client;
pub mod digest;
pub mod order;
pub mod params;
pub mod signer;
pub mod timestamp;
pub mod wire;

pub use client::{Method, Request, RequestError, RustClient, SignedRequest};
pub use params::Params;
pub use signer::{base_string, generate_signature};
