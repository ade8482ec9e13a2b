use std::collections::HashSet;

use egress::egress::{Egress, EgressError};
use egress::mux::OutputMux;
use egress::packet::{Link, Packet, Payload};

fn data_packet(records: Vec<u64>) -> Packet {
    Packet { link: Link { src: 9, dst: 9 }, tag: None, payload: Payload::Data { records } }
}

fn replay_packet(tag: u32, records: Vec<u64>) -> Packet {
    Packet {
        link: Link { src: 9, dst: 9 },
        tag: Some(tag),
        payload: Payload::Replay { records },
    }
}

fn reachable(nodes: &[u64]) -> HashSet<u64> {
    let mut r = HashSet::new();
    for n in nodes {
        r.insert(*n);
    }
    r
}

/// Three targets, all reachable, untagged data: every queue receives one
/// message, the last-registered target's queue the original (the slot
/// empties), the others structurally equal duplicates; each link header is
/// rewritten to the shard index and the receiver's local id.
#[test]
fn untagged_all_reachable_broadcasts() {
    let mut e = Egress::default();
    e.add_tx(1, 10, (0, 0));
    e.add_tx(2, 20, (0, 1));
    e.add_tx(3, 30, (0, 2));
    let mut mux = OutputMux::new();
    let mut m = Some(data_packet(vec![1, 2, 3]));
    let r = e.process(&mut m, 7, &mut mux, &reachable(&[1, 2, 3]));
    assert_eq!(r, Ok(()));
    assert_eq!(m, None);
    let qa = mux.queue((0, 0));
    let qb = mux.queue((0, 1));
    let qc = mux.queue((0, 2));
    assert_eq!(qa.len(), 1);
    assert_eq!(qb.len(), 1);
    assert_eq!(qc.len(), 1);
    assert_eq!(
        qa[0],
        Packet {
            link: Link { src: 7, dst: 10 },
            tag: None,
            payload: Payload::Data { records: vec![1, 2, 3] },
        }
    );
    assert_eq!(
        qb[0],
        Packet {
            link: Link { src: 7, dst: 20 },
            tag: None,
            payload: Payload::Data { records: vec![1, 2, 3] },
        }
    );
    assert_eq!(
        qc[0],
        Packet {
            link: Link { src: 7, dst: 30 },
            tag: None,
            payload: Payload::Data { records: vec![1, 2, 3] },
        }
    );
    assert_eq!(qa[0].payload, qc[0].payload);
}

/// Same registry but the last-configured target is unreachable: the reachable
/// targets receive duplicates, no queue receives the original, and the
/// original stays in the slot, untouched, for the caller to discard.
#[test]
fn untagged_last_unreachable_drops_original() {
    let mut e = Egress::default();
    e.add_tx(1, 10, (0, 0));
    e.add_tx(2, 20, (0, 1));
    e.add_tx(3, 30, (0, 2));
    let mut mux = OutputMux::new();
    let original = data_packet(vec![4, 5]);
    let mut m = Some(original.clone());
    let r = e.process(&mut m, 2, &mut mux, &reachable(&[1, 2]));
    assert_eq!(r, Ok(()));
    assert_eq!(m, Some(original));
    assert_eq!(mux.queue((0, 0)).len(), 1);
    assert_eq!(mux.queue((0, 1)).len(), 1);
    assert_eq!(mux.queue((0, 2)).len(), 0);
    assert_eq!(mux.queue((0, 0))[0].link, Link { src: 2, dst: 10 });
    assert_eq!(mux.queue((0, 1))[0].link, Link { src: 2, dst: 20 });
}

/// A tagged packet goes only to the target its tag is bound to, by ownership
/// transfer; every other reachable target's queue stays unchanged.
#[test]
fn tagged_goes_only_to_bound_target() {
    let mut e = Egress::default();
    e.add_tx(1, 10, (0, 0));
    e.add_tx(2, 20, (0, 1));
    e.add_tag(1, 2);
    let mut mux = OutputMux::new();
    let mut m = Some(replay_packet(1, vec![8]));
    let r = e.process(&mut m, 4, &mut mux, &reachable(&[1, 2]));
    assert_eq!(r, Ok(()));
    assert_eq!(m, None);
    assert_eq!(mux.queue((0, 0)).len(), 0);
    let qb = mux.queue((0, 1));
    assert_eq!(qb.len(), 1);
    assert_eq!(
        qb[0],
        Packet {
            link: Link { src: 4, dst: 20 },
            tag: Some(1),
            payload: Payload::Replay { records: vec![8] },
        }
    );
}

/// A packet carrying a tag with no binding is a routing-consistency error:
/// nothing is enqueued and the slot keeps the packet.
#[test]
fn unbound_tag_is_routing_error() {
    let mut e = Egress::default();
    e.add_tx(1, 10, (0, 0));
    e.add_tx(2, 20, (0, 1));
    e.add_tag(1, 2);
    let mut mux = OutputMux::new();
    let original = replay_packet(99, vec![8]);
    let mut m = Some(original.clone());
    let r = e.process(&mut m, 0, &mut mux, &reachable(&[1, 2]));
    assert_eq!(r, Err(EgressError::RoutingConsistency));
    assert_eq!(m, Some(original));
    assert_eq!(mux.queue((0, 0)).len(), 0);
    assert_eq!(mux.queue((0, 1)).len(), 0);
}

/// A tag bound to an unreachable node is no error: the walk simply delivers
/// nothing and the slot keeps the packet.
#[test]
fn tagged_bound_but_unreachable_delivers_nothing() {
    let mut e = Egress::default();
    e.add_tx(1, 10, (0, 0));
    e.add_tag(1, 1);
    let mut mux = OutputMux::new();
    let original = replay_packet(1, vec![3]);
    let mut m = Some(original.clone());
    let r = e.process(&mut m, 0, &mut mux, &reachable(&[]));
    assert_eq!(r, Ok(()));
    assert_eq!(m, Some(original));
    assert_eq!(mux.queue((0, 0)).len(), 0);
}

/// Rebinding an existing tag overwrites the old binding.
#[test]
fn add_tag_overwrites_binding() {
    let mut e = Egress::default();
    e.add_tx(1, 10, (0, 0));
    e.add_tx(2, 20, (0, 1));
    e.add_tag(1, 1);
    e.add_tag(1, 2);
    let mut mux = OutputMux::new();
    let mut m = Some(replay_packet(1, vec![6]));
    let r = e.process(&mut m, 0, &mut mux, &reachable(&[1, 2]));
    assert_eq!(r, Ok(()));
    assert_eq!(mux.queue((0, 0)).len(), 0);
    assert_eq!(mux.queue((0, 1)).len(), 1);
}

/// Per-destination queues are FIFO in dispatch-call order.
#[test]
fn successive_dispatches_keep_fifo_order() {
    let mut e = Egress::default();
    e.add_tx(1, 10, (0, 0));
    let to_nodes = reachable(&[1]);
    let mut mux = OutputMux::new();
    let mut m1 = Some(data_packet(vec![1]));
    let mut m2 = Some(data_packet(vec![2]));
    let mut m3 = Some(data_packet(vec![3]));
    assert_eq!(e.process(&mut m1, 0, &mut mux, &to_nodes), Ok(()));
    assert_eq!(e.process(&mut m2, 0, &mut mux, &to_nodes), Ok(()));
    assert_eq!(e.process(&mut m3, 0, &mut mux, &to_nodes), Ok(()));
    let q = mux.queue((0, 0));
    assert_eq!(q.len(), 3);
    assert_eq!(q[0].payload, Payload::Data { records: vec![1] });
    assert_eq!(q[1].payload, Payload::Data { records: vec![2] });
    assert_eq!(q[2].payload, Payload::Data { records: vec![3] });
}

/// With exactly one tag binding, the repair primitive clears all targets,
/// installs the one new target and rebinds the tag to the new node.
#[test]
fn replace_tx_with_single_binding() {
    let mut e = Egress::default();
    e.add_tx(1, 10, (0, 0));
    e.add_tx(2, 20, (0, 1));
    e.add_tag(1, 2);
    assert_eq!(e.replace_tx(5, 50, (1, 0)), Ok(()));
    let nodes = e.get_tx_nodes();
    assert_eq!(nodes.len(), 1);
    assert!(nodes.contains(&5));
    // the tag now routes to the new target
    let mut mux = OutputMux::new();
    let mut m = Some(replay_packet(1, vec![7]));
    assert_eq!(e.process(&mut m, 3, &mut mux, &reachable(&[5])), Ok(()));
    assert_eq!(m, None);
    let q = mux.queue((1, 0));
    assert_eq!(q.len(), 1);
    assert_eq!(q[0].link, Link { src: 3, dst: 50 });
}

/// With zero or several tag bindings the repair primitive fails and changes
/// nothing.
#[test]
fn replace_tx_needs_exactly_one_binding() {
    let mut e = Egress::default();
    e.add_tx(1, 10, (0, 0));
    assert_eq!(e.replace_tx(5, 50, (1, 0)), Err(EgressError::PreconditionViolation));
    let nodes = e.get_tx_nodes();
    assert_eq!(nodes.len(), 1);
    assert!(nodes.contains(&1));

    e.add_tag(1, 1);
    e.add_tag(2, 1);
    assert_eq!(e.replace_tx(5, 50, (1, 0)), Err(EgressError::PreconditionViolation));
    let nodes = e.get_tx_nodes();
    assert!(nodes.contains(&1));
}

/// Duplicating before any target is registered succeeds and carries the tag
/// bindings over.
#[test]
fn duplicate_before_targets_keeps_bindings() {
    let mut e = Egress::default();
    e.add_tag(1, 2);
    let mut copy = e.duplicate().unwrap();
    assert_eq!(copy.get_tx_nodes().len(), 0);
    // the carried-over binding still routes
    copy.add_tx(2, 20, (0, 1));
    let mut mux = OutputMux::new();
    let mut m = Some(replay_packet(1, vec![1]));
    assert_eq!(copy.process(&mut m, 0, &mut mux, &reachable(&[2])), Ok(()));
    assert_eq!(mux.queue((0, 1)).len(), 1);
}

/// Duplicating after a target has been registered fails.
#[test]
fn duplicate_after_target_fails() {
    let mut e = Egress::default();
    e.add_tx(1, 10, (0, 0));
    match e.duplicate() {
        Err(err) => assert_eq!(err, EgressError::PreconditionViolation),
        Ok(_) => panic!("duplicate must fail once a target is registered"),
    }
}

/// The registered node-id set: distinct ids, duplicates collapsed.
#[test]
fn get_tx_nodes_collects_distinct_ids() {
    let mut e = Egress::default();
    assert_eq!(e.get_tx_nodes().len(), 0);
    e.add_tx(1, 10, (0, 0));
    e.add_tx(1, 11, (0, 1));
    e.add_tx(2, 20, (0, 2));
    let nodes = e.get_tx_nodes();
    assert_eq!(nodes.len(), 2);
    assert!(nodes.contains(&1));
    assert!(nodes.contains(&2));
}

/// Two targets sharing a node id: untagged data reaches both queues; the
/// replay path delivers only once, to the first registered occurrence.
#[test]
fn duplicate_node_ids_fan_out_for_data_once_for_replay() {
    let mut e = Egress::default();
    e.add_tx(1, 10, (0, 0));
    e.add_tx(1, 11, (0, 1));
    let to_nodes = reachable(&[1]);
    let mut mux = OutputMux::new();
    let mut m = Some(data_packet(vec![2]));
    assert_eq!(e.process(&mut m, 0, &mut mux, &to_nodes), Ok(()));
    assert_eq!(m, None);
    assert_eq!(mux.queue((0, 0)).len(), 1);
    assert_eq!(mux.queue((0, 1)).len(), 1);

    e.add_tag(3, 1);
    let mut mux = OutputMux::new();
    let mut m = Some(replay_packet(3, vec![2]));
    assert_eq!(e.process(&mut m, 0, &mut mux, &to_nodes), Ok(()));
    assert_eq!(m, None);
    assert_eq!(mux.queue((0, 0)).len(), 1);
    assert_eq!(mux.queue((0, 1)).len(), 0);
    assert_eq!(mux.queue((0, 0))[0].link, Link { src: 0, dst: 10 });
}

/// A data packet may also carry a tag; it still follows the replay rule and
/// moves, never duplicates.
#[test]
fn tagged_data_payload_moves_to_bound_target() {
    let mut e = Egress::default();
    e.add_tx(1, 10, (0, 0));
    e.add_tx(2, 20, (0, 1));
    e.add_tag(1, 1);
    let mut mux = OutputMux::new();
    let mut m = Some(Packet {
        link: Link { src: 9, dst: 9 },
        tag: Some(1),
        payload: Payload::Data { records: vec![5] },
    });
    assert_eq!(e.process(&mut m, 6, &mut mux, &reachable(&[1, 2])), Ok(()));
    assert_eq!(m, None);
    assert_eq!(mux.queue((0, 0)).len(), 1);
    assert_eq!(mux.queue((0, 1)).len(), 0);
}
