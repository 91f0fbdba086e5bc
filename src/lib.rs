//! A gossip-based publish/subscribe core: wire codec, signatures, duplicate
//! suppression, peer directory, per-topic meshes and the node that ties them.
pub mod wire;
pub mod message;
pub mod crypto;
pub mod auth;
pub mod seen;
pub mod directory;
pub mod mesh;
pub mod node;
pub mod input;
pub mod control;
