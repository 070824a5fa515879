//! Addresses with a numeric device id, and the text helpers of the browser client.
pub use crate::cli::utils::{decodeBase64, splitAndClean};
pub use crate::wire::Address;
