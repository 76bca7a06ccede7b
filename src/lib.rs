//! The substrate that contracts use to talk to their host: a typed binary
//! codec, a per-contract key-value store, and the protocol by which one
//! contract calls or replaces another, with the contracts that exercise it.
use vstd::prelude::*;

pub mod address;
pub mod codec;
pub mod context;
pub mod contractop;
pub mod helloworld;
pub mod hex;
pub mod host;
pub mod storage;
pub mod wasm_call_wasm;

verus! {

} // verus!
