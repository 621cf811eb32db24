//! A verifiable off-chain computation pipeline: preflight a read-only
//! contract call against a snapshot of chain state, re-execute it inside a
//! proving runtime, assert a domain invariant over the result, and submit
//! the resulting proof artifact as an on-chain claim.

pub mod abi;
pub mod codec;
pub mod env;
pub mod guest;
pub mod prove;
pub mod submit;
pub mod values;
pub mod words;
