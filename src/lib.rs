//! A small key-value server's logic: the RESP wire format (values, their
//! encoding and an incremental parser), the commands read from requests, the
//! shared store, and what a connection does with the bytes it has gathered.
use vstd::prelude::*;

pub mod command;
pub mod framing;
pub mod parser;
pub mod resp;
pub mod server;
pub mod store;

verus! {

} // verus!
