//! A small library for keeping a set of named author identities
//! (display name and email address) in a plain-text configuration
//! file and choosing one of them interactively.
//!
//! The library holds the verified core: the identity table and its
//! invariants, key derivation from display names, the configuration
//! file codec (serializer and parser), and the decision logic of the
//! interactive menu. Reading standard input, touching the file system
//! and invoking the version-control tool stay outside the library.

pub mod codec;
pub mod ident;
pub mod menu;
pub mod registry;
pub mod text;
