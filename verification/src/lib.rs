//! A client-side core for a request/response/notification RPC protocol whose
//! messages travel as small arrays in a binary serialization format over a
//! byte stream.
//!
//! The crate proves the parts that are easy to get wrong: the exact wire form
//! of every message and that decoding inverts encoding, the wrapping
//! identifier generator, and the table that correlates each in-flight call
//! with the channel that will deliver its result.  The binary primitives
//! themselves come from an outside codec and are taken on their documented
//! word; the transport loop lives outside the verified core.

pub mod value;
pub mod codec;
pub mod message;
pub mod ids;
pub mod table;
pub mod client;
