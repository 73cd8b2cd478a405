//! Collaborative assembly of a single unsigned batch transaction whose inputs
//! and outputs are contributed by independent, mutually distrusting
//! participants.
//!
//! The accumulator at the centre of the crate is an unsigned transaction
//! skeleton (inputs, outputs, per-input proof-of-funds metadata) together with
//! a fee ledger.  Participants extend it through the contribution builder, one
//! bounded contribution per visit, under six coordination strategies.  Every
//! mutation preserves two accounting invariants: no outpoint is ever spent
//! twice within one accumulator, and the value flowing in equals the value
//! flowing out plus the net fee collected by the initiator.

pub mod builder;
pub mod codec;
pub mod engine;
pub mod errors;
pub mod laws;
pub mod model;
pub mod participant;
pub mod strategies;
pub mod uri;
