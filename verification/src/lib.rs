//! A peer address lifecycle ledger for a peer-to-peer overlay network.
//!
//! The ledger keeps three collections per instance: the set of accepted
//! peer endpoints, a quarantine ledger counting connection failures per
//! endpoint, and a registry of rejected hosts. Candidate endpoints pass a
//! validation and filtering policy before they are stored; repeated
//! quarantine escalates an endpoint to host-wide rejection; read-only
//! sampling queries serve the connection workers.

pub mod addr;
pub mod hosts;
pub mod kdf;
pub mod laws;
pub mod locality;
pub mod sample;
pub mod settings;
pub mod validate;
