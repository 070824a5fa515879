//! The terminal client: its connection settings, its messages and its key store.
pub mod cmdhandler;
pub mod encrypter;
pub mod serverhandlers;
pub mod utils;
