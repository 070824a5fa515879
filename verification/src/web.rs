//! The browser client: its key store, its messages, and what it does on each event of the
//! page.
pub mod encrypter;
pub mod events;
pub mod key_bundle;
pub mod msg;
pub mod serverhandlers;
pub mod utils;
