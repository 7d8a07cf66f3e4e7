//! Generation of candidate subdomain names by lexical mutation.
//!
//! Given a list of already-decomposed domain names (subdomain labels plus a
//! root domain) and an optional seed wordlist, the library derives a
//! deduplicated word corpus and applies a fixed family of mutation
//! strategies, producing candidate hostnames for later external resolution.

pub mod chartext;
pub mod corpus;
pub mod domain;
pub mod engine;
pub mod laws;
pub mod mutate;
