//! Memory blocks that carry their own data-integrity policies.
//!
//! A block is allocated together with an ordered stack of protection layers:
//! redundant copies repaired by a bitwise majority vote, and Reed-Solomon
//! parity. The layers nest like envelopes around the caller's payload, and
//! corruption of the stored bytes can be detected and repaired on demand.

pub mod block;
pub mod codec;
pub mod ffi;
pub mod policies;
pub mod stack;
pub mod vote;
pub mod weak;
