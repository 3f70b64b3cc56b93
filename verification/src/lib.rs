//! Core of an OpenID-Connect-fronted session service: the OIDC session
//! broker, the callback verification pipeline, the token issuer, the
//! refresh-token store and the per-request authorization predicates.
//!
//! Everything that decides is verified; calls into outside crates
//! (hashing, signing, base64, id generation, the clock) stand behind
//! trusted wrappers whose contracts name what they rely on.

pub mod constants;
pub mod crypto;
pub mod directory;
pub mod encoding;
pub mod errors;
pub mod gen;
pub mod json;
pub mod jwt;
pub mod listing;
pub mod middleware;
pub mod models;
pub mod pipeline;
pub mod roles;
pub mod session;
pub mod store;

pub use roles::Role;
