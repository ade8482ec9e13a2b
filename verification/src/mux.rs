//! The output multiplexer: per-destination FIFO queues of outgoing packets,
//! keyed by replica address.
//!
//! Dispatch only ever appends at the back of a destination's queue; a
//! downstream flush/transport stage consumes the queues and relies on
//! per-destination arrival order. The queues live in an fnv-hashed map, which
//! verification does not look inside: `mux_queues` names its contents, and
//! the methods below state over that name what the underlying standard map
//! operations do.

use vstd::prelude::*;
use std::collections::VecDeque;
use crate::packet::{Packet, PacketView, ReplicaAddr};

verus! {

/// Per-destination queues of outgoing packets, backed by an fnv-hashed map.
#[verifier::external_body]
pub struct OutputMux {
    inner: fnv::FnvHashMap<ReplicaAddr, VecDeque<Packet>>,
}

/// The queues a multiplexer holds: each address maps to the sequence of
/// packets enqueued for it, front first. An address never enqueued to maps
/// to the empty sequence.
pub uninterp spec fn mux_queues(m: &OutputMux) -> Map<ReplicaAddr, Seq<PacketView>>;

/// The queues of a freshly built multiplexer: every address maps to the
/// empty sequence.
pub open spec fn mux_empty() -> Map<ReplicaAddr, Seq<PacketView>> {
    Map::total(|a: ReplicaAddr| Seq::<PacketView>::empty())
}

/// `mux` with `msg` appended at the back of the queue for `dest`.
pub open spec fn mux_enqueue(
    mux: Map<ReplicaAddr, Seq<PacketView>>,
    dest: ReplicaAddr,
    msg: PacketView,
) -> Map<ReplicaAddr, Seq<PacketView>> {
    mux.insert(dest, mux[dest].push(msg))
}

impl OutputMux {
    /// Relies on `fnv::FnvHashMap` being an alias of
    /// `std::collections::HashMap` and on `HashMap::default`: a freshly built
    /// map holds no entry, so every queue is empty.
    #[verifier::external_body]
    pub fn new() -> (r: OutputMux)
        ensures
            mux_queues(&r) == mux_empty(),
    {
        OutputMux { inner: fnv::FnvHashMap::default() }
    }

    /// Relies on `HashMap::entry`, `Entry::or_default` and
    /// `VecDeque::push_back`: appends `msg` at the back of the queue for
    /// `dest` and touches no other queue.
    #[verifier::external_body]
    pub fn enqueue_back(&mut self, dest: ReplicaAddr, msg: Packet)
        ensures
            mux_queues(final(self)) == mux_enqueue(mux_queues(old(self)), dest, msg@),
    {
        self.inner.entry(dest).or_default().push_back(msg);
    }

    /// Relies on `HashMap::get` and `VecDeque::iter`: the queue for `dest`,
    /// front first, as a vector of copies; empty if nothing was ever enqueued
    /// for `dest`.
    #[verifier::external_body]
    pub fn queue(&self, dest: ReplicaAddr) -> (r: Vec<Packet>)
        ensures
            r@.len() == mux_queues(self)[dest].len(),
            forall|i: int| 0 <= i < r@.len() ==> r@[i]@ == mux_queues(self)[dest][i],
    {
        match self.inner.get(&dest) {
            Some(q) => q.iter().cloned().collect(),
            None => Vec::new(),
        }
    }
}

} // verus!
