//! Output fan-out stage of one compute node in a partitioned streaming
//! dataflow engine.
//!
//! An egress shim owns an ordered registry of downstream delivery targets
//! plus a map from replay-path tag to the one target that owns that path.
//! Its dispatch engine routes each outgoing packet: ordinary data is
//! delivered to every currently reachable target (the last-registered one
//! takes ownership of the original payload, the others receive duplicates),
//! while replay traffic goes to exactly one target and is never duplicated.

pub mod dispatch;
pub mod egress;
pub mod mux;
pub mod packet;
pub mod tags;
