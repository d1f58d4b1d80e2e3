//! A MessagePack-RPC client engine: value model, wire codec, call table and
//! the decision core of the dispatch loop.
use vstd::prelude::*;

pub mod value;
pub mod codec;
pub mod message;
pub mod call_table;
pub mod session;

verus! {

} // verus!
