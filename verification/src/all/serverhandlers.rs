//! The messages of the signed protocol, as the client defines them.
pub use crate::client::serverhandlers::{MsgContent, SecureMsgIdentifier, ServerMsg};
