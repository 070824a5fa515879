//! The shared layer of the signed protocol: addresses that carry a device id, and the
//! messages, which the client's modules define.
pub mod serverhandlers;
pub mod utils;
