//! The client of the signed protocol: addresses that carry a public key, the ratchets that
//! encrypt each message under a key of its own, the messages and key store built on them, and
//! what the desktop client keeps on disk.
pub mod delivery;
pub mod events;
pub mod key_bundle;
pub mod ratchet;
pub mod save;
pub mod serverhandlers;
pub mod store;
pub mod utils;
