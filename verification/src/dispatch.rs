//! The mathematical model of one dispatch: which targets receive a packet,
//! what each enqueued message looks like, and how the output multiplexer
//! changes; with the routing laws proved over that model.

use vstd::prelude::*;
use crate::egress::EgressTx;
use crate::mux::mux_enqueue;
use crate::packet::{Link, LocalNodeIndex, NodeIndex, PacketView, ReplicaAddr};

verus! {

/// `p` with its link header rewritten: source = the dispatching shard encoded
/// as a local id, destination = the receiving target's registered local id.
pub open spec fn rewritten(p: PacketView, shard: LocalNodeIndex, dst: LocalNodeIndex) -> PacketView {
    PacketView { link: Link { src: shard, dst: dst }, tag: p.tag, payload: p.payload }
}

/// The targets an untagged data packet reaches: every reachable target, in
/// registration order.
pub open spec fn data_receivers(txs: Seq<EgressTx>, reach: Set<NodeIndex>) -> Seq<EgressTx>
    decreases txs.len(),
{
    if txs.len() == 0 {
        Seq::empty()
    } else {
        let rest = data_receivers(txs.drop_last(), reach);
        if reach.contains(txs.last().node) {
            rest.push(txs.last())
        } else {
            rest
        }
    }
}

/// The one target a replay packet bound to node `n` reaches: the first
/// registered target that carries `n` and is reachable, if any.
pub open spec fn replay_receiver(txs: Seq<EgressTx>, reach: Set<NodeIndex>, n: NodeIndex) -> Option<
    EgressTx,
>
    decreases txs.len(),
{
    if txs.len() == 0 {
        None
    } else if replay_receiver(txs.drop_last(), reach, n) is Some {
        replay_receiver(txs.drop_last(), reach, n)
    } else if reach.contains(txs.last().node) && txs.last().node == n {
        Some(txs.last())
    } else {
        None
    }
}

/// All targets one dispatch sends to, in the order the messages are enqueued.
pub open spec fn receivers(
    txs: Seq<EgressTx>,
    reach: Set<NodeIndex>,
    replay_to: Option<NodeIndex>,
) -> Seq<EgressTx> {
    match replay_to {
        None => data_receivers(txs, reach),
        Some(n) => match replay_receiver(txs, reach, n) {
            Some(tx) => seq![tx],
            None => Seq::empty(),
        },
    }
}

/// Whether some target takes exclusive ownership of the packet: for replay
/// traffic, exactly when its bound node has a reachable target; for data,
/// exactly when the last-registered target is itself reachable — last by
/// registration order, not last among the reachable ones.
pub open spec fn takes(
    txs: Seq<EgressTx>,
    reach: Set<NodeIndex>,
    replay_to: Option<NodeIndex>,
) -> bool
    recommends
        txs.len() > 0,
{
    match replay_to {
        None => reach.contains(txs.last().node),
        Some(n) => replay_receiver(txs, reach, n) is Some,
    }
}

/// The multiplexer after one dispatch: for each receiving target in order,
/// the rewritten packet appended to the queue at that target's address.
pub open spec fn enqueue_all(
    mux: Map<ReplicaAddr, Seq<PacketView>>,
    rs: Seq<EgressTx>,
    p: PacketView,
    shard: LocalNodeIndex,
) -> Map<ReplicaAddr, Seq<PacketView>>
    decreases rs.len(),
{
    if rs.len() == 0 {
        mux
    } else {
        mux_enqueue(
            enqueue_all(mux, rs.drop_last(), p, shard),
            rs.last().dest,
            rewritten(p, shard, rs.last().local),
        )
    }
}

/// The messages one dispatch appends for destination `d`, in order.
pub open spec fn sent_to(
    rs: Seq<EgressTx>,
    d: ReplicaAddr,
    p: PacketView,
    shard: LocalNodeIndex,
) -> Seq<PacketView>
    decreases rs.len(),
{
    if rs.len() == 0 {
        Seq::empty()
    } else {
        let rest = sent_to(rs.drop_last(), d, p, shard);
        if rs.last().dest == d {
            rest.push(rewritten(p, shard, rs.last().local))
        } else {
            rest
        }
    }
}

/// Once a prefix of the target list resolves a replay receiver, the rest of
/// the list cannot change it.
pub proof fn lemma_replay_receiver_prefix(
    txs: Seq<EgressTx>,
    k: int,
    reach: Set<NodeIndex>,
    n: NodeIndex,
)
    requires
        0 <= k <= txs.len(),
        replay_receiver(txs.take(k), reach, n) is Some,
    ensures
        replay_receiver(txs, reach, n) == replay_receiver(txs.take(k), reach, n),
    decreases txs.len(),
{
    if k == txs.len() {
        assert(txs.take(k) =~= txs);
    } else {
        let dl = txs.drop_last();
        assert(dl.take(k) =~= txs.take(k));
        lemma_replay_receiver_prefix(dl, k, reach, n);
    }
}

/// With an untagged packet and every target reachable, every target receives
/// a message, in registration order, and ownership of the original payload
/// transfers (the packet slot empties) to the last-registered target; every
/// other target receives an equal duplicate.
pub proof fn lemma_broadcast_all_reachable(txs: Seq<EgressTx>, reach: Set<NodeIndex>)
    requires
        txs.len() > 0,
        forall|i: int| 0 <= i < txs.len() ==> reach.contains((#[trigger] txs[i]).node),
    ensures
        receivers(txs, reach, None::<NodeIndex>) == txs,
        takes(txs, reach, None::<NodeIndex>),
    decreases txs.len(),
{
    assert(txs[txs.len() - 1] == txs.last());
    assert(reach.contains(txs.last().node));
    let dl = txs.drop_last();
    if txs.len() == 1 {
        assert(data_receivers(dl, reach) == Seq::<EgressTx>::empty());
        assert(data_receivers(txs, reach) =~= txs);
    } else {
        assert forall|i: int| 0 <= i < dl.len() implies reach.contains(
            (#[trigger] dl[i]).node,
        ) by {
            assert(dl[i] == txs[i]);
        }
        lemma_broadcast_all_reachable(dl, reach);
        assert(data_receivers(txs, reach) == dl.push(txs.last()));
        assert(dl.push(txs.last()) =~= txs);
    }
}

/// A replay receiver exists exactly when some registered target carries the
/// bound node and is reachable; when it exists, dispatch delivers exactly one
/// message, to such a target, by ownership transfer; when it does not,
/// dispatch delivers nothing.
pub proof fn lemma_replay_exclusive(txs: Seq<EgressTx>, reach: Set<NodeIndex>, n: NodeIndex)
    ensures
        (replay_receiver(txs, reach, n) is Some) <==> exists|i: int|
            0 <= i < txs.len() && (#[trigger] txs[i]).node == n && reach.contains(txs[i].node),
        replay_receiver(txs, reach, n) matches Some(tx) ==> tx.node == n && reach.contains(tx.node)
            && txs.contains(tx) && receivers(txs, reach, Some(n)) == seq![tx] && takes(
            txs,
            reach,
            Some(n),
        ),
        replay_receiver(txs, reach, n) is None ==> receivers(txs, reach, Some(n)) == Seq::<
            EgressTx,
        >::empty() && !takes(txs, reach, Some(n)),
    decreases txs.len(),
{
    if txs.len() > 0 {
        let dl = txs.drop_last();
        lemma_replay_exclusive(dl, reach, n);
        if replay_receiver(txs, reach, n) is Some {
            let tx = replay_receiver(txs, reach, n)->Some_0;
            if replay_receiver(dl, reach, n) is Some {
                let j = choose|j: int| 0 <= j < dl.len() && dl[j] == tx;
                assert(txs[j] == tx);
                assert(txs.contains(tx));
                assert(txs[j].node == n && reach.contains(txs[j].node));
            } else {
                assert(tx == txs.last());
                assert(txs[txs.len() - 1] == tx);
                assert(txs.contains(tx));
            }
        }
        if exists|i: int|
            0 <= i < txs.len() && (#[trigger] txs[i]).node == n && reach.contains(txs[i].node) {
            let i = choose|i: int|
                0 <= i < txs.len() && (#[trigger] txs[i]).node == n && reach.contains(txs[i].node);
            if i < txs.len() - 1 {
                assert(dl[i].node == n && reach.contains(dl[i].node));
                assert(replay_receiver(dl, reach, n) is Some);
            } else {
                assert(txs.last() == txs[i]);
            }
            assert(replay_receiver(txs, reach, n) is Some);
        }
    }
}

/// Dispatch appends and never reorders: after one dispatch, the queue at any
/// destination `d` is exactly the old queue followed, in enqueue order, by
/// this call's messages for `d`. Across successive dispatch calls the
/// per-destination order is therefore first-in, first-out in call order.
pub proof fn lemma_dispatch_fifo(
    mux: Map<ReplicaAddr, Seq<PacketView>>,
    rs: Seq<EgressTx>,
    p: PacketView,
    shard: LocalNodeIndex,
    d: ReplicaAddr,
)
    ensures
        enqueue_all(mux, rs, p, shard)[d] == mux[d] + sent_to(rs, d, p, shard),
    decreases rs.len(),
{
    if rs.len() == 0 {
        assert(mux[d] + Seq::<PacketView>::empty() =~= mux[d]);
    } else {
        lemma_dispatch_fifo(mux, rs.drop_last(), p, shard, d);
        let inner = enqueue_all(mux, rs.drop_last(), p, shard);
        let msg = rewritten(p, shard, rs.last().local);
        if rs.last().dest == d {
            assert(mux_enqueue(inner, d, msg)[d] == inner[d].push(msg));
            assert((mux[d] + sent_to(rs.drop_last(), d, p, shard)).push(msg) =~= mux[d] + sent_to(
                rs.drop_last(),
                d,
                p,
                shard,
            ).push(msg));
        } else {
            assert(mux_enqueue(inner, rs.last().dest, msg)[d] == inner[d]);
        }
    }
}

/// `m` is the packet `p` with tag and payload unchanged and its link header
/// rewritten for some target registered for destination `d`.
pub open spec fn message_for(
    rs: Seq<EgressTx>,
    d: ReplicaAddr,
    p: PacketView,
    shard: LocalNodeIndex,
    m: PacketView,
) -> bool {
    exists|k: int|
        0 <= k < rs.len() && (#[trigger] rs[k]).dest == d && m == rewritten(p, shard, rs[k].local)
}

/// Every message dispatch appends for destination `d` carries the packet's
/// tag and payload unchanged, with its link header rewritten to source = the
/// dispatching shard and destination = the registered local id of a target
/// whose address is `d`.
pub proof fn lemma_link_headers(
    rs: Seq<EgressTx>,
    d: ReplicaAddr,
    p: PacketView,
    shard: LocalNodeIndex,
)
    ensures
        forall|j: int|
            0 <= j < sent_to(rs, d, p, shard).len() ==> message_for(
                rs,
                d,
                p,
                shard,
                #[trigger] sent_to(rs, d, p, shard)[j],
            ),
    decreases rs.len(),
{
    if rs.len() == 0 {
        assert(sent_to(rs, d, p, shard).len() == 0);
    } else {
        let dl = rs.drop_last();
        lemma_link_headers(dl, d, p, shard);
        assert forall|j: int| 0 <= j < sent_to(rs, d, p, shard).len() implies message_for(
            rs,
            d,
            p,
            shard,
            #[trigger] sent_to(rs, d, p, shard)[j],
        ) by {
            if j < sent_to(dl, d, p, shard).len() {
                assert(sent_to(rs, d, p, shard)[j] == sent_to(dl, d, p, shard)[j]);
                assert(message_for(dl, d, p, shard, sent_to(dl, d, p, shard)[j]));
                let k = choose|k: int|
                    0 <= k < dl.len() && (#[trigger] dl[k]).dest == d && sent_to(dl, d, p, shard)[j]
                        == rewritten(p, shard, dl[k].local);
                assert(rs[k] == dl[k]);
                assert(rs[k].dest == d && sent_to(rs, d, p, shard)[j] == rewritten(
                    p,
                    shard,
                    rs[k].local,
                ));
            } else {
                assert(rs.last().dest == d);
                assert(sent_to(rs, d, p, shard)[j] == rewritten(p, shard, rs.last().local));
                assert(rs[rs.len() - 1].dest == d && sent_to(rs, d, p, shard)[j] == rewritten(
                    p,
                    shard,
                    rs[rs.len() - 1].local,
                ));
            }
        }
    }
}

} // verus!
