use neuron_wire::dht_sim::{
    check_convergence, run_ticks, simulate_tick, Message, Node, CHECK_INTERVAL, MAX_TICKS,
    SETTLE_TICKS,
};
use neuron_wire::dht_sim_compact::{
    self as compact, bootstrap_batch, deliver_round, is_virtual_target, periodic_visit, round_plan,
    sample_stats,
    sorted_search, virtual_reply, DeliveryEnd, Msg, RoundPlan,
};

#[test]
fn bounded_table_evicts_oldest_first() {
    let mut n = Node::new(0, 3);
    n.insert_peer(1);
    n.insert_peer(2);
    n.insert_peer(0);
    n.insert_peer(2);
    n.insert_peer(3);
    assert_eq!(n.peer_count(), 3);
    n.insert_peer(4);
    assert_eq!(n.peer_count(), 3);
    assert_eq!(n.max_peers(), 3);
    let mut q = Vec::new();
    n.recv(&Message::Ping(1, 0), &mut q, 0, 10);
    assert_eq!(n.peer_count(), 3);
    assert_eq!(q.len(), 3);
    for m in &q {
        match m {
            Message::Pong(0, 1, rec) => assert!([1u64, 3, 4].contains(rec)),
            _ => panic!("expected pongs"),
        }
    }
}

#[test]
fn unbounded_table_grows() {
    let mut n = Node::new(7, 0);
    for p in 0..50 {
        n.insert_peer(p);
    }
    assert_eq!(n.peer_count(), 49);
}

#[test]
fn bootstrap_and_periodic_rounds() {
    let mut n = Node::new(3, 0);
    let mut q = Vec::new();
    n.tick(0, 100, &mut q);
    assert!(q.len() <= 30 && !q.is_empty());
    assert_eq!(n.packets_out(), q.len() as u64);
    assert_eq!(n.bytes_out(), 24 * q.len() as u64);
    for m in &q {
        assert!(matches!(m, Message::Ping(3, _)));
        assert_eq!(m.wire_size(), 24);
    }
    for p in 10..20 {
        n.insert_peer(p);
    }
    let mut q2 = Vec::new();
    n.tick(999, 100, &mut q2);
    assert!(q2.is_empty());
    n.tick(1000, 100, &mut q2);
    let pings = q2.iter().filter(|m| matches!(m, Message::Ping(..))).count();
    let finds = q2.iter().filter(|m| matches!(m, Message::FindNode(..))).count();
    assert_eq!(pings, 10);
    assert_eq!(finds, 10);
    assert!(MAX_TICKS > 0);
}

#[test]
fn find_node_is_answered_or_forwarded() {
    let mut n = Node::new(5, 0);
    n.insert_peer(6);
    let mut q = Vec::new();
    n.recv(&Message::FindNode(9, 5, 6), &mut q, 0, 100);
    assert_eq!(q, vec![Message::NodeFound(9, 6)]);
    let mut q2 = Vec::new();
    n.recv(&Message::FindNode(9, 5, 77), &mut q2, 0, 100);
    assert_eq!(q2.len(), 1);
    assert!(matches!(q2[0], Message::FindNode(9, _, 77)));
    let mut q3 = Vec::new();
    n.recv(&Message::NodeFound(5, 42), &mut q3, 0, 100);
    n.recv(&Message::Pong(8, 5, 0), &mut q3, 0, 100);
    assert!(q3.is_empty());
    assert_eq!(n.peer_count(), 4);
    assert_eq!(Message::NodeFound(1, 2).to(), 1);
    assert!(!n.update_converged(5));
    assert!(n.update_converged(4));
    assert!(n.update_converged(100));
}

#[test]
fn compact_node_keeps_sorted_unique_peers() {
    let mut n = compact::Node::new(5);
    for p in [9u32, 1, 5, 7, 1, 3] {
        n.add_peer(p);
    }
    assert_eq!(n.peers, vec![1, 3, 7, 9]);
    assert_eq!(sorted_search(&n.peers, 7), Ok(2));
    assert_eq!(sorted_search(&n.peers, 8), Err(3));
    for p in 0..1000u32 {
        n.add_peer(p);
    }
    assert_eq!(n.peers.len(), compact::MAX_PEERS);
}

#[test]
fn compact_messages() {
    assert_eq!(Msg::ping(1, 2), Msg { kind: 0, from: 1, to: 2, arg: 0 });
    assert_eq!(Msg::pong(1, 2, 3).arg, 3);
    assert_eq!(Msg::find_node(1, 2, 3).kind, 2);
    assert_eq!(Msg::node_found(1, 2, 3).kind, 3);
    let n = compact::Node::new(4);
    let mut buf = Vec::new();
    n.bootstrap(1000, 0, 100, &mut buf);
    assert!(buf.len() <= compact::BOOTSTRAP_PINGS);
    assert!(buf.iter().all(|m| m.kind == 0 && m.from == 4 && m.to != 4));
    let mut buf2 = Vec::new();
    n.periodic(1000, 77, &mut buf2);
    assert!(buf2.is_empty());
    let mut m = compact::Node::new(0);
    for p in 1..=6 {
        m.add_peer(p);
    }
    m.periodic(1000, 12345, &mut buf2);
    assert_eq!(buf2.iter().filter(|x| x.kind == 0).count(), 6);
    assert!(buf2.iter().filter(|x| x.kind == 2).count() <= compact::FIND_PER_ROUND);
}

#[test]
fn compact_ping_is_answered_with_recommendations() {
    let mut n = compact::Node::new(5);
    for p in [1u32, 2, 3] {
        n.add_peer(p);
    }
    let mut out = Vec::new();
    // seed 0: slots pick peers[(0*3 + r) % 4] of [1, 2, 3, 9] after taking in 9
    n.receive(Msg::ping(9, 5), 0, &mut out);
    assert_eq!(n.peers, vec![1, 2, 3, 9]);
    assert_eq!(n.pkts_out, 1);
    assert_eq!(out, vec![Msg::pong(5, 9, 1), Msg::pong(5, 9, 2), Msg::pong(5, 9, 3)]);
}

#[test]
fn compact_ping_without_other_peers_recommends_itself() {
    let mut n = compact::Node::new(5);
    let mut out = Vec::new();
    n.receive(Msg::ping(5, 5), 0, &mut out);
    assert!(n.peers.is_empty());
    assert_eq!(out, vec![Msg::pong(5, 5, 5)]);
}

#[test]
fn compact_pong_find_and_found() {
    let mut n = compact::Node::new(5);
    let mut out = Vec::new();
    n.receive(Msg::pong(7, 5, 8), 0, &mut out);
    assert_eq!(n.peers, vec![7, 8]);
    n.receive(Msg::pong(6, 5, 0), 0, &mut out);
    assert_eq!(n.peers, vec![6, 7, 8]);
    n.receive(Msg::find_node(6, 5, 8), 0, &mut out);
    assert_eq!(out, vec![Msg::node_found(5, 6, 8)]);
    assert_eq!(n.pkts_out, 1);
    n.receive(Msg::find_node(6, 5, 100), 0, &mut out);
    assert_eq!(out.len(), 1);
    n.receive(Msg::node_found(6, 5, 42), 0, &mut out);
    assert_eq!(n.peers, vec![6, 7, 8, 42]);
    n.receive(Msg { kind: 9, from: 1, to: 5, arg: 1 }, 0, &mut out);
    assert_eq!(n.peers, vec![6, 7, 8, 42]);
}

#[test]
fn virtual_nodes_answer_pings_and_finds() {
    assert!(is_virtual_target(300, 200, true));
    assert!(!is_virtual_target(300, 200, false));
    assert!(!is_virtual_target(100, 200, true));
    let mut out = Vec::new();
    // sender with few peers: every slot recommends a seeded active node
    virtual_reply(&vec![1, 2], Msg::ping(3, 500), 0, 200, &mut out);
    let expect: Vec<Msg> = (0..3u64)
        .map(|r| {
            let rid = 0u64.wrapping_add(r.wrapping_mul(compact::SEED_INC)) % 200;
            Msg::pong(500, 3, rid as u32)
        })
        .collect();
    assert_eq!(out, expect);
    // sender with more than 3 peers: first two slots use its peers
    let mut out = Vec::new();
    virtual_reply(&vec![10, 20, 30, 40, 50], Msg::ping(3, 500), 1, 200, &mut out);
    assert_eq!(out[0], Msg::pong(500, 3, 30));
    assert_eq!(out[1], Msg::pong(500, 3, 40));
    let third = compact::SEED_MUL.wrapping_add(2u64.wrapping_mul(compact::SEED_INC)) % 200;
    assert_eq!(out[2], Msg::pong(500, 3, third as u32));
    let mut out = Vec::new();
    virtual_reply(&vec![], Msg::find_node(3, 500, 77), 0, 200, &mut out);
    assert_eq!(out, vec![Msg::node_found(500, 3, 77)]);
    let mut out = Vec::new();
    virtual_reply(&vec![], Msg::pong(3, 500, 77), 0, 200, &mut out);
    assert!(out.is_empty());
}

#[test]
fn rounds_bootstrap_in_batches_then_visit_round_robin() {
    assert_eq!(round_plan(0, false, 0, 10, 4), RoundPlan::Bootstrap { lo: 0, hi: 4 });
    assert_eq!(round_plan(1, false, 8, 10, 4), RoundPlan::Bootstrap { lo: 8, hi: 10 });
    assert_eq!(round_plan(500, true, 10, 10, 4), RoundPlan::Periodic { start: 1, step: 5 });
    assert_eq!(round_plan(1000, true, 10, 10, 4), RoundPlan::Periodic { start: 2 % 5, step: 5 });
    assert_eq!(round_plan(501, true, 10, 10, 4), RoundPlan::Idle);
    assert_eq!(round_plan(0, true, 10, 10, 4), RoundPlan::Idle);

    let mut nodes: Vec<compact::Node> = (0..10).map(compact::Node::new).collect();
    nodes[1].add_peer(3);
    let mut out = Vec::new();
    bootstrap_batch(&nodes, 0, 3, 10, 0, 10, &mut out);
    let mut expect = Vec::new();
    nodes[0].bootstrap(10, 0, 10, &mut expect);
    nodes[2].bootstrap(10, 0, 10, &mut expect);
    assert_eq!(out, expect);

    let mut out = Vec::new();
    periodic_visit(&nodes, 1, 5, 10, 0, &mut out);
    let mut expect = Vec::new();
    nodes[1].periodic(10, 0, &mut expect);
    nodes[6].periodic(10, 0, &mut expect);
    assert_eq!(out, expect);
}

#[test]
fn samples_count_every_step_th_node() {
    let mut nodes: Vec<compact::Node> = (0..7).map(compact::Node::new).collect();
    nodes[0].add_peer(1);
    nodes[0].add_peer(2);
    nodes[3].add_peer(1);
    nodes[6].pkts_out = 4;
    let st = sample_stats(&nodes, 3, 2);
    assert_eq!(st.samples, 3);
    assert_eq!(st.total_peers, 3);
    assert_eq!(st.max_peers, 2);
    assert_eq!(st.converged, 1);
    assert_eq!(st.packets, 4);
}

#[test]
fn one_tick_delivers_the_bootstrap_round() {
    let mut nodes: Vec<Node> = (0..4u64).map(|i| Node::new(i, 0)).collect();
    let mut q: Vec<Message> = Vec::new();
    simulate_tick(&mut nodes, 0, &mut q);
    assert!(q.is_empty());
    let sent: u64 = nodes.iter().map(|n| n.packets_out()).sum();
    let received: u64 = nodes.iter().map(|n| n.packets_in()).sum();
    assert!(received > 0);
    assert!(received <= sent);
    for n in &nodes {
        assert!(n.packets_out() <= 30 + 90 * 4);
        assert!(n.peer_count() < 4);
    }
    let known: usize = nodes.iter().map(|n| n.peer_count()).sum();
    assert!(known > 0);
}

#[test]
fn convergence_check_flags_and_counts() {
    let mut nodes: Vec<Node> = (0..3u64).map(|i| Node::new(i, 0)).collect();
    nodes[0].insert_peer(1);
    nodes[0].insert_peer(2);
    nodes[1].insert_peer(0);
    assert_eq!(check_convergence(&mut nodes, 2), 1);
    assert_eq!(check_convergence(&mut nodes, 1), 2);
    // Flags stay once set.
    assert_eq!(check_convergence(&mut nodes, 5), 2);
}

#[test]
fn trial_converges_and_stops_after_settling() {
    let mut nodes: Vec<Node> = (0..20u64).map(|i| Node::new(i, 0)).collect();
    let end = run_ticks(&mut nodes, 15, 16);
    match end.converged_at {
        Some(t) => {
            assert_eq!(t % CHECK_INTERVAL, 0);
            assert!(t < MAX_TICKS);
            assert!(end.conv_count >= 16);
        }
        None => assert!(end.conv_count < 16),
    }
    assert!(end.conv_count <= 20);
    assert_eq!(SETTLE_TICKS, 5000);
}

#[test]
fn empty_trial_counts_as_converged_at_once() {
    let mut nodes: Vec<Node> = Vec::new();
    let end = run_ticks(&mut nodes, 0, 0);
    assert_eq!(end.converged_at, Some(0));
    assert_eq!(end.conv_count, 0);
}

#[test]
fn round_delivery_answers_pings_and_delivers_the_answers() {
    let mut nodes: Vec<compact::Node> = (0..2u32).map(compact::Node::new).collect();
    let mut out = vec![Msg { kind: 0, from: 0, to: 1, arg: 0 }];
    assert_eq!(deliver_round(&mut nodes, &mut out, 7, 2, false), DeliveryEnd::Done);
    assert_eq!(out.len(), 2);
    assert_eq!(out[1], Msg { kind: 1, from: 1, to: 0, arg: 0 });
    assert_eq!(nodes[0].peers, vec![1]);
    assert_eq!(nodes[1].peers, vec![0]);
    assert_eq!(nodes[1].pkts_out, 1);
    assert_eq!(nodes[0].pkts_out, 0);
}

#[test]
fn round_delivery_lets_virtual_nodes_answer() {
    let mut nodes: Vec<compact::Node> = (0..2u32).map(compact::Node::new).collect();
    let mut out = vec![Msg { kind: 0, from: 0, to: 5, arg: 0 }];
    assert_eq!(deliver_round(&mut nodes, &mut out, 3, 2, true), DeliveryEnd::Done);
    assert_eq!(out.len(), 4);
    for m in &out[1..] {
        assert_eq!(m.kind, 1);
        assert_eq!(m.from, 5);
        assert_eq!(m.to, 0);
    }
    assert!(nodes[0].peers.contains(&5));
}

#[test]
fn round_delivery_stops_at_an_undeliverable_message() {
    let mut nodes: Vec<compact::Node> = (0..2u32).map(compact::Node::new).collect();
    let mut out = vec![Msg { kind: 1, from: 0, to: 7, arg: 0 }];
    assert_eq!(deliver_round(&mut nodes, &mut out, 1, 2, false), DeliveryEnd::NoSuchNode(0));

    nodes[1].pkts_out = u32::MAX;
    let mut out = vec![
        Msg { kind: 1, from: 1, to: 0, arg: 0 },
        Msg { kind: 0, from: 0, to: 1, arg: 0 },
    ];
    assert_eq!(deliver_round(&mut nodes, &mut out, 1, 2, false), DeliveryEnd::CounterFull(1));
    assert_eq!(nodes[0].peers, vec![1]);
}
