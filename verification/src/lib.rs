//! Storage and integrity core of a hierarchical directory service: a
//! transactional adapter that maps a tree-shaped namespace onto flat
//! key-value tables, an append-only block log with witness attestation via
//! canonical content hashing, and a password-based key-derivation subsystem.

pub mod adapter;
pub mod block;
pub mod canonical;
pub mod error;
pub mod id;
pub mod node;
pub mod objectclass;
pub mod password;
pub mod path;
pub mod store;
pub mod text;
pub mod witness;
