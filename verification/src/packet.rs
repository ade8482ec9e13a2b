//! Identifiers, link headers and packets: the plain data the dispatch engine
//! routes.

use vstd::prelude::*;

verus! {

/// Graph-global identifier of a node in the dataflow graph.
pub type NodeIndex = u64;

/// Domain-local identifier of a node. A link header's `src` field also
/// carries an originating shard index encoded as a local identifier.
pub type LocalNodeIndex = u32;

/// Identifier of an active replay path.
pub type Tag = u32;

/// Routable address of a worker/shard instance: (domain index, shard index).
pub type ReplicaAddr = (u64, usize);

/// Per-message routing metadata, rewritten at each shim boundary.
#[derive(Clone, Copy, Debug, PartialEq, Eq, Structural)]
pub struct Link {
    pub src: LocalNodeIndex,
    pub dst: LocalNodeIndex,
}

/// Message payload. `Data` is cheaply duplicable; `Replay` belongs to a
/// state-replay path and must never be duplicated.
#[derive(Clone, Debug, PartialEq, Eq)]
pub enum Payload {
    Data { records: Vec<u64> },
    Replay { records: Vec<u64> },
}

/// Mathematical model of a payload.
#[verifier::ext_equal]
pub enum PayloadView {
    Data { records: Seq<u64> },
    Replay { records: Seq<u64> },
}

impl View for Payload {
    type V = PayloadView;

    open spec fn view(&self) -> PayloadView {
        match self {
            Payload::Data { records } => PayloadView::Data { records: records@ },
            Payload::Replay { records } => PayloadView::Replay { records: records@ },
        }
    }
}

/// One outgoing message: an optional replay-path tag, a link header, and a
/// payload.
#[derive(Clone, Debug, PartialEq, Eq)]
pub struct Packet {
    pub link: Link,
    pub tag: Option<Tag>,
    pub payload: Payload,
}

/// Mathematical model of a packet.
#[verifier::ext_equal]
pub struct PacketView {
    pub link: Link,
    pub tag: Option<Tag>,
    pub payload: PayloadView,
}

impl View for Packet {
    type V = PacketView;

    open spec fn view(&self) -> PacketView {
        PacketView { link: self.link, tag: self.tag, payload: self.payload@ }
    }
}

impl Packet {
    /// Duplicate a data packet. Duplication is defined only for data
    /// payloads; requesting it for any other payload kind is a defect in the
    /// caller's take/skip accounting, so such inputs are excluded.
    pub fn clone_data(&self) -> (r: Packet)
        requires
            self.payload is Data,
        ensures
            r@ == self@,
    {
        match &self.payload {
            Payload::Data { records } => {
                let copied = copy_records(records);
                let r = Packet {
                    link: self.link,
                    tag: self.tag,
                    payload: Payload::Data { records: copied },
                };
                proof {
                    assert(r@ =~= self@);
                }
                r
            },
            Payload::Replay { .. } => vstd::pervasive::unreached(),
        }
    }
}

/// Copy a record vector element by element.
fn copy_records(records: &Vec<u64>) -> (r: Vec<u64>)
    ensures
        r@ == records@,
{
    let mut r: Vec<u64> = Vec::new();
    let mut i: usize = 0;
    while i < records.len()
        invariant
            i <= records.len(),
            r@ == records@.take(i as int),
        decreases records.len() - i,
    {
        r.push(records[i]);
        i = i + 1;
        proof {
            assert(r@ =~= records@.take(i as int));
        }
    }
    proof {
        assert(records@.take(records@.len() as int) =~= records@);
    }
    r
}

} // verus!
