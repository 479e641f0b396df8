//! Signer state for a remote signing client: a versioned key-value store
//! that can be reconciled against a peer's snapshot, and the certificate
//! bundle that carries the client's identity.

pub mod hexcode;
pub mod model;
pub mod order;
pub mod records;
pub mod serialize;
pub mod snapshot;
pub mod state;
pub mod sync;
pub mod text;
pub mod utils;
pub mod wire;
