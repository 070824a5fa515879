#![allow(non_snake_case)]
use vstd::prelude::*;

pub mod all;
pub mod cli;
pub mod client;
pub mod clock;
pub mod codec;
pub mod crypto;
pub mod server;
pub mod text;
pub mod web;
pub mod wire;

verus! {
}
