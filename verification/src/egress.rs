//! The egress shim itself: the target registry and the per-packet dispatch
//! engine.

use vstd::prelude::*;
use std::collections::HashSet;
use crate::dispatch::{data_receivers, enqueue_all, receivers, replay_receiver, rewritten, takes,
    lemma_replay_receiver_prefix};
use crate::mux::{mux_enqueue, mux_queues, OutputMux};
use crate::packet::{LocalNodeIndex, NodeIndex, Packet, ReplicaAddr, Tag};
use crate::tags::{has_tag, lemma_tags_as_map_dom, lemma_tags_as_map_index,
    lemma_tags_as_map_remove, lemma_unique_tags_remove, tags_as_map, unique_tags};

verus! {

broadcast use vstd::std_specs::hash::group_hash_axioms;

/// One registered downstream delivery target: an ingress shim reachable at
/// `dest`, identified globally by `node` and domain-locally by `local`.
#[derive(Clone, Copy, Debug, PartialEq, Eq)]
pub struct EgressTx {
    pub node: NodeIndex,
    pub local: LocalNodeIndex,
    pub dest: ReplicaAddr,
}

/// A failure of dispatch or of a registry repair. All are fatal for the
/// processing context that caused them; none is retried.
#[derive(Clone, Copy, Debug, PartialEq, Eq, Structural)]
pub enum EgressError {
    /// A replay-tagged packet's tag is absent from the binding map.
    RoutingConsistency,
    /// A narrow mutation primitive was invoked outside its stated contract.
    PreconditionViolation,
}

/// The egress state: the ordered target list and the replay-tag bindings.
pub struct Egress {
    txs: Vec<EgressTx>,
    tags: Vec<(Tag, NodeIndex)>,
}

/// Some target in `txs` carries the node id `n`.
pub open spec fn node_among(txs: Seq<EgressTx>, n: NodeIndex) -> bool {
    exists|i: int| 0 <= i < txs.len() && (#[trigger] txs[i]).node == n
}

/// First index whose pair carries key `tag`, if any.
fn find_tag(tags: &Vec<(Tag, NodeIndex)>, tag: Tag) -> (r: Option<usize>)
    ensures
        match r {
            Some(i) => i < tags@.len() && tags@[i as int].0 == tag,
            None => !has_tag(tags@, tag),
        },
{
    let mut i: usize = 0;
    while i < tags.len()
        invariant
            i <= tags.len(),
            forall|j: int| 0 <= j < i ==> (#[trigger] tags@[j]).0 != tag,
        decreases tags.len() - i,
    {
        if tags[i].0 == tag {
            return Some(i);
        }
        i = i + 1;
    }
    None
}

impl Egress {
    /// The registered targets, in registration order.
    pub closed spec fn targets(self) -> Seq<EgressTx> {
        self.txs@
    }

    /// The replay-tag bindings, as pairs in binding order.
    pub closed spec fn tag_bindings(self) -> Seq<(Tag, NodeIndex)> {
        self.tags@
    }

    /// The replay-tag bindings, as a map.
    pub open spec fn tags_map(self) -> Map<Tag, NodeIndex> {
        tags_as_map(self.tag_bindings())
    }

    /// Internal invariant: each tag is bound at most once.
    pub open spec fn wf(self) -> bool {
        unique_tags(self.tag_bindings())
    }

    /// Append a new target. No deduplication; registration order is kept and
    /// is semantically significant (dispatch ownership transfer goes to the
    /// last-registered target).
    pub fn add_tx(&mut self, dst_g: NodeIndex, dst_l: LocalNodeIndex, addr: ReplicaAddr)
        ensures
            final(self).targets() == old(self).targets().push(
                EgressTx { node: dst_g, local: dst_l, dest: addr },
            ),
            final(self).tag_bindings() == old(self).tag_bindings(),
    {
        self.txs.push(EgressTx { node: dst_g, local: dst_l, dest: addr });
    }

    /// Bind `tag` to `dst`, overwriting any existing binding for `tag`.
    pub fn add_tag(&mut self, tag: Tag, dst: NodeIndex)
        requires
            old(self).wf(),
        ensures
            final(self).wf(),
            final(self).targets() == old(self).targets(),
            final(self).tags_map() == old(self).tags_map().insert(tag, dst),
            final(self).tag_bindings().len() == if has_tag(old(self).tag_bindings(), tag) {
                old(self).tag_bindings().len()
            } else {
                old(self).tag_bindings().len() + 1
            },
    {
        let ghost s0 = self.tags@;
        match find_tag(&self.tags, tag) {
            Some(i) => {
                proof {
                    lemma_tags_as_map_remove(s0, i as int);
                    lemma_unique_tags_remove(s0, i as int);
                }
                self.tags.remove(i);
                self.tags.push((tag, dst));
                proof {
                    let s1 = s0.remove(i as int);
                    assert(self.tags@ == s1.push((tag, dst)));
                    assert(self.tags@.drop_last() =~= s1);
                    assert(tags_as_map(self.tags@) == tags_as_map(s1).insert(tag, dst));
                    assert(tags_as_map(s1).insert(tag, dst) =~= tags_as_map(s0).insert(tag, dst));
                    assert forall|a: int, b: int| 0 <= a < b < self.tags@.len() implies (
                    #[trigger] self.tags@[a]).0 != (#[trigger] self.tags@[b]).0 by {
                        if b < self.tags@.len() - 1 {
                            assert(self.tags@[a] == s1[a] && self.tags@[b] == s1[b]);
                        } else {
                            assert(self.tags@[a] == s1[a]);
                            assert(!has_tag(s1, tag));
                            assert(s1[a].0 != tag);
                        }
                    }
                    assert(has_tag(s0, tag));
                }
            },
            None => {
                self.tags.push((tag, dst));
                proof {
                    assert(self.tags@.drop_last() =~= s0);
                    assert(tags_as_map(self.tags@) == tags_as_map(s0).insert(tag, dst));
                    assert forall|a: int, b: int| 0 <= a < b < self.tags@.len() implies (
                    #[trigger] self.tags@[a]).0 != (#[trigger] self.tags@[b]).0 by {
                        if b < self.tags@.len() - 1 {
                            assert(self.tags@[a] == s0[a] && self.tags@[b] == s0[b]);
                        } else {
                            assert(self.tags@[a] == s0[a]);
                            assert(s0[a].0 != tag);
                        }
                    }
                }
            },
        }
    }

    /// The set of distinct node ids currently registered.
    pub fn get_tx_nodes(&self) -> (r: HashSet<NodeIndex>)
        ensures
            forall|n: NodeIndex| #[trigger] r@.contains(n) <==> node_among(self.targets(), n),
    {
        let mut r: HashSet<NodeIndex> = HashSet::new();
        let mut i: usize = 0;
        while i < self.txs.len()
            invariant
                i <= self.txs.len(),
                forall|n: NodeIndex| #[trigger] r@.contains(n) <==> node_among(
                    self.txs@.take(i as int),
                    n,
                ),
            decreases self.txs.len() - i,
        {
            let ghost prev = r@;
            r.insert(self.txs[i].node);
            i = i + 1;
            proof {
                let t = self.txs@.take(i as int);
                assert forall|n: NodeIndex| #[trigger] r@.contains(n) <==> node_among(t, n) by {
                    if r@.contains(n) {
                        if n == self.txs@[i - 1].node {
                            assert(t[i - 1].node == n);
                        } else {
                            assert(prev.contains(n));
                            let j = choose|j: int|
                                0 <= j < i - 1 && (#[trigger] self.txs@.take(i - 1)[j]).node == n;
                            assert(t[j].node == n);
                        }
                        assert(node_among(t, n));
                    }
                    if node_among(t, n) {
                        let j = choose|j: int| 0 <= j < t.len() && (#[trigger] t[j]).node == n;
                        if j < i - 1 {
                            assert(self.txs@.take(i - 1)[j].node == n);
                            assert(node_among(self.txs@.take(i - 1), n));
                        }
                        assert(r@.contains(n));
                    }
                }
            }
        }
        proof {
            assert(self.txs@.take(self.txs@.len() as int) =~= self.txs@);
        }
        r
    }

    /// Discard all targets, install exactly the one new target, and rebind
    /// the registry's single replay tag to the new node id. A narrow repair
    /// primitive: it demands exactly one existing tag binding and fails,
    /// changing nothing, with any other number. It must not be generalized to
    /// registries with several targets or several active replay paths.
    pub fn replace_tx(&mut self, dst_g: NodeIndex, dst_l: LocalNodeIndex, addr: ReplicaAddr) -> (r:
        Result<(), EgressError>)
        requires
            old(self).wf(),
        ensures
            final(self).wf(),
            old(self).tag_bindings().len() == 1 ==> {
                &&& r == Ok::<(), EgressError>(())
                &&& final(self).targets() == seq![
                    EgressTx { node: dst_g, local: dst_l, dest: addr },
                ]
                &&& final(self).tag_bindings() == seq![(old(self).tag_bindings()[0].0, dst_g)]
                &&& final(self).tags_map() == Map::<Tag, NodeIndex>::empty().insert(
                    old(self).tag_bindings()[0].0,
                    dst_g,
                )
            },
            old(self).tag_bindings().len() != 1 ==> r == Err::<(), EgressError>(
                EgressError::PreconditionViolation,
            ) && *final(self) == *old(self),
    {
        if self.tags.len() != 1 {
            return Err(EgressError::PreconditionViolation);
        }
        let tag = self.tags[0].0;
        self.txs.clear();
        self.txs.push(EgressTx { node: dst_g, local: dst_l, dest: addr });
        self.tags.clear();
        self.tags.push((tag, dst_g));
        proof {
            assert(self.txs@ =~= seq![EgressTx { node: dst_g, local: dst_l, dest: addr }]);
            assert(self.tags@ =~= seq![(tag, dst_g)]);
            assert(self.tags@.drop_last() =~= Seq::<(Tag, NodeIndex)>::empty());
            assert(tags_as_map(Seq::<(Tag, NodeIndex)>::empty()) == Map::<Tag, NodeIndex>::empty());
            assert(tags_as_map(self.tags@) == Map::<Tag, NodeIndex>::empty().insert(tag, dst_g));
        }
        Ok(())
    }

    /// The node a tag is bound to, if any.
    fn lookup_tag(&self, t: Tag) -> (r: Option<NodeIndex>)
        requires
            self.wf(),
        ensures
            r == if self.tags_map().contains_key(t) {
                Some(self.tags_map()[t])
            } else {
                None::<NodeIndex>
            },
    {
        proof {
            lemma_tags_as_map_dom(self.tags@);
        }
        match find_tag(&self.tags, t) {
            Some(i) => {
                proof {
                    lemma_tags_as_map_index(self.tags@, i as int);
                }
                Some(self.tags[i].1)
            },
            None => None,
        }
    }

    /// The first registered target that carries node `n` and is reachable:
    /// the exclusive recipient of a replay packet bound to `n`.
    #[verifier::loop_isolation(false)]
    fn find_replay_tx(&self, to_nodes: &HashSet<NodeIndex>, n: NodeIndex) -> (r: Option<usize>)
        ensures
            match r {
                Some(i) => i < self.txs@.len() && to_nodes@.contains(self.txs@[i as int].node)
                    && self.txs@[i as int].node == n && replay_receiver(self.txs@, to_nodes@, n)
                    == Some(self.txs@[i as int]),
                None => replay_receiver(self.txs@, to_nodes@, n) is None,
            },
    {
        proof {
            assert(self.txs@.take(self.txs@.len() as int) =~= self.txs@);
        }
        let mut i: usize = 0;
        while i < self.txs.len()
            invariant
                i <= self.txs.len(),
                replay_receiver(self.txs@.take(i as int), to_nodes@, n) is None,
            decreases self.txs.len() - i,
        {
            let tx = self.txs[i];
            if to_nodes.contains(&tx.node) && tx.node == n {
                proof {
                    let t0 = self.txs@.take(i as int);
                    let t1 = self.txs@.take(i as int + 1);
                    assert(t1.drop_last() =~= t0);
                    assert(t1.last() == self.txs@[i as int]);
                    assert(replay_receiver(t1, to_nodes@, n) == Some(self.txs@[i as int]));
                    lemma_replay_receiver_prefix(self.txs@, i as int + 1, to_nodes@, n);
                }
                return Some(i);
            }
            i = i + 1;
            proof {
                let t1 = self.txs@.take(i as int);
                assert(t1.drop_last() =~= self.txs@.take(i as int - 1));
                assert(t1.last() == self.txs@[i as int - 1]);
            }
        }
        None
    }

    /// Dispatch one packet.
    ///
    /// If the packet carries a replay tag, it is resolved against the tag
    /// bindings to one exclusive recipient node; an unbound tag is a
    /// routing-consistency error and nothing is delivered. The target list is
    /// then walked once in registration order, skipping targets outside
    /// `to_nodes` (temporarily unreachable). A replay packet goes, by
    /// ownership transfer out of the slot `m`, to the first reachable target
    /// of its recipient node and to nothing after it. An untagged data packet
    /// goes to every reachable target: the last-registered target takes the
    /// original by ownership transfer, every other one an equal duplicate.
    /// Ownership follows registration order, not reachability: if the
    /// last-registered target is unreachable for this call, no target takes
    /// the original, every reachable target receives a duplicate, and the
    /// original stays in the slot for the caller to discard.
    ///
    /// Each delivered message's link header is rewritten to source = `shard`
    /// (encoded as a local id) and destination = the receiving target's
    /// registered local id, and the message is appended at the back of the
    /// queue for the target's replica address.
    #[verifier::loop_isolation(false)]
    pub fn process(
        &self,
        m: &mut Option<Packet>,
        shard: usize,
        output: &mut OutputMux,
        to_nodes: &HashSet<NodeIndex>,
    ) -> (r: Result<(), EgressError>)
        requires
            self.wf(),
            self.targets().len() > 0,
            (*old(m)) is Some,
            (*old(m))->Some_0.tag is None ==> (*old(m))->Some_0.payload is Data,
            shard <= u32::MAX as usize,
        ensures
            ({
                let p = (*old(m))->Some_0;
                let sh = shard as LocalNodeIndex;
                if p.tag is Some && !self.tags_map().contains_key(p.tag->Some_0) {
                    &&& r == Err::<(), EgressError>(EgressError::RoutingConsistency)
                    &&& mux_queues(final(output)) == mux_queues(old(output))
                    &&& *final(m) == *old(m)
                } else {
                    let replay_to = if p.tag is Some {
                        Some(self.tags_map()[p.tag->Some_0])
                    } else {
                        None::<NodeIndex>
                    };
                    &&& r == Ok::<(), EgressError>(())
                    &&& mux_queues(final(output)) == enqueue_all(
                        mux_queues(old(output)),
                        receivers(self.targets(), to_nodes@, replay_to),
                        p@,
                        sh,
                    )
                    &&& *final(m) == if takes(self.targets(), to_nodes@, replay_to) {
                        None::<Packet>
                    } else {
                        *old(m)
                    }
                }
            }),
    {
        let ghost p: Packet = (*old(m))->Some_0;
        let ghost mux0 = mux_queues(old(output));
        let ghost reach = to_nodes@;

        let tag_opt: Option<Tag> = m.as_ref().unwrap().tag;
        let replay_to: Option<NodeIndex> = match tag_opt {
            Some(t) => {
                match self.lookup_tag(t) {
                    Some(n) => Some(n),
                    None => {
                        return Err(EgressError::RoutingConsistency);
                    },
                }
            },
            None => None,
        };

        proof {
            assert(self.txs@.take(self.txs@.len() as int) =~= self.txs@);
        }

        match replay_to {
            None => {
                let last_idx = self.txs.len() - 1;
                let mut i: usize = 0;
                while i < self.txs.len()
                    invariant
                        i <= self.txs.len(),
                        mux_queues(output) == enqueue_all(
                            mux0,
                            data_receivers(self.txs@.take(i as int), reach),
                            p@,
                            shard as LocalNodeIndex,
                        ),
                        i < self.txs.len() ==> *m == *old(m),
                        i == self.txs.len() ==> *m == (if reach.contains(self.txs@.last().node) {
                            None::<Packet>
                        } else {
                            *old(m)
                        }),
                    decreases self.txs.len() - i,
                {
                    let tx = self.txs[i];
                    if to_nodes.contains(&tx.node) {
                        let take = i == last_idx;
                        let mut msg: Packet = if take {
                            m.take().unwrap()
                        } else {
                            m.as_ref().unwrap().clone_data()
                        };
                        msg.link.src = shard as LocalNodeIndex;
                        msg.link.dst = tx.local;
                        proof {
                            assert(msg@ =~= rewritten(p@, shard as LocalNodeIndex, tx.local));
                        }
                        output.enqueue_back(tx.dest, msg);
                    }
                    proof {
                        let t0 = self.txs@.take(i as int);
                        let t1 = self.txs@.take(i as int + 1);
                        assert(t1.drop_last() =~= t0);
                        assert(t1.last() == self.txs@[i as int]);
                        if reach.contains(self.txs@[i as int].node) {
                            let rs0 = data_receivers(t0, reach);
                            let rs1 = rs0.push(self.txs@[i as int]);
                            assert(data_receivers(t1, reach) == rs1);
                            assert(rs1.drop_last() =~= rs0);
                            assert(rs1.last() == self.txs@[i as int]);
                            assert(enqueue_all(mux0, rs1, p@, shard as LocalNodeIndex)
                                == mux_enqueue(
                                enqueue_all(mux0, rs0, p@, shard as LocalNodeIndex),
                                self.txs@[i as int].dest,
                                rewritten(p@, shard as LocalNodeIndex, self.txs@[i as int].local),
                            ));
                        } else {
                            assert(data_receivers(t1, reach) == data_receivers(t0, reach));
                        }
                    }
                    i = i + 1;
                }
                Ok(())
            },
            Some(n) => {
                match self.find_replay_tx(to_nodes, n) {
                    Some(i) => {
                        let tx = self.txs[i];
                        let mut msg: Packet = m.take().unwrap();
                        msg.link.src = shard as LocalNodeIndex;
                        msg.link.dst = tx.local;
                        proof {
                            assert(msg@ =~= rewritten(p@, shard as LocalNodeIndex, tx.local));
                        }
                        output.enqueue_back(tx.dest, msg);
                        proof {
                            let rcv = seq![self.txs@[i as int]];
                            assert(receivers(self.txs@, reach, Some(n)) == rcv);
                            assert(rcv.len() == 1);
                            assert(rcv.drop_last() =~= Seq::<EgressTx>::empty());
                            assert(rcv.last() == self.txs@[i as int]);
                            assert(tx == self.txs@[i as int]);
                            assert(enqueue_all(mux0, rcv.drop_last(), p@, shard as LocalNodeIndex)
                                == mux0);
                            assert(enqueue_all(mux0, rcv, p@, shard as LocalNodeIndex)
                                == mux_enqueue(
                                mux0,
                                tx.dest,
                                rewritten(p@, shard as LocalNodeIndex, tx.local),
                            ));
                        }
                    },
                    None => {},
                }
                Ok(())
            },
        }
    }

    /// Duplicate this egress, as done when its owning graph fragment is
    /// replicated. Allowed only while no target is registered; the tag
    /// bindings carry over. With any registered target it fails: that is a
    /// use-after-finalize defect.
    pub fn duplicate(&self) -> (r: Result<Egress, EgressError>)
        ensures
            self.targets().len() == 0 ==> (r matches Ok(e) && e.targets() == Seq::<
                EgressTx,
            >::empty() && e.tag_bindings() == self.tag_bindings() && (self.wf() ==> e.wf())),
            self.targets().len() != 0 ==> r == Err::<Egress, EgressError>(
                EgressError::PreconditionViolation,
            ),
    {
        if self.txs.len() != 0 {
            return Err(EgressError::PreconditionViolation);
        }
        let mut tags2: Vec<(Tag, NodeIndex)> = Vec::new();
        let mut i: usize = 0;
        while i < self.tags.len()
            invariant
                i <= self.tags.len(),
                tags2@ == self.tags@.take(i as int),
            decreases self.tags.len() - i,
        {
            tags2.push(self.tags[i]);
            i = i + 1;
            proof {
                assert(tags2@ =~= self.tags@.take(i as int));
            }
        }
        proof {
            assert(self.tags@.take(self.tags@.len() as int) =~= self.tags@);
        }
        Ok(Egress { txs: Vec::new(), tags: tags2 })
    }
}

impl Default for Egress {
    /// A registry with no targets and no tag bindings.
    fn default() -> (r: Egress)
        ensures
            r.targets() == Seq::<EgressTx>::empty(),
            r.tag_bindings() == Seq::<(Tag, NodeIndex)>::empty(),
            r.wf(),
    {
        Egress { txs: Vec::new(), tags: Vec::new() }
    }
}

} // verus!
