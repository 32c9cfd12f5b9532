use std::collections::hash_map::DefaultHasher;
use std::collections::HashMap;
use std::hash::{Hash, Hasher};

use sand::network::network::{
    client_request_needs_resend, needs_cluster_nodes, storage_add_data, storage_add_node,
    storage_remove_node, ChangeRaftClusterConfig, ClientOutcome, ClientTarget, ConfigChangeRoute, MsgKind, RaftDispatch, StartRequest,
    DisconnectFollowUp, Network, NetworkState, ProposalOutcome, RaftMetrics, RaftState,
};
use sand::raft::storage::{MembershipConfig, MemoryStorageData};
use sand::utils::generate_node_id;

/// The identity the way a `str` hashes into the standard hasher.
fn std_id(address: &str) -> u64 {
    let mut h = DefaultHasher::new();
    address.hash(&mut h);
    h.finish()
}

/// A handle that remembers how it was made.
#[derive(Debug, Clone, PartialEq)]
struct Conn {
    id: u64,
    local: u64,
    addr: String,
}

fn start(id: u64, local: u64, addr: String) -> Conn {
    Conn { id, local, addr }
}

/// Registers `address` and makes the connection it asks for, if any.
fn register(net: &mut Network<Conn, Vec<u64>>, address: &str) {
    if let Some(q) = net.register_node(address) {
        net.node_started(q.id, start(q.id, q.local_id, q.address));
    }
}

fn listening(address: &str) -> Network<Conn, Vec<u64>> {
    let mut net = Network::new("10.0.0.1:9000".to_string());
    net.listen(address);
    net
}

#[test]
fn node_id_is_the_standard_hash_of_the_address() {
    for a in ["127.0.0.1:8000", "172.17.0.2:8000", "", "é:1"] {
        assert_eq!(generate_node_id(a), std_id(a));
    }
    assert_ne!(generate_node_id("a:1"), generate_node_id("a:2"));
}

#[test]
fn new_network_knows_nothing() {
    let net: Network<Conn, Vec<u64>> = Network::new("srv".to_string());
    assert_eq!(net.get_cluster_state(), NetworkState::Initialized);
    assert!(net.get_node(1).is_none());
    assert!(net.raft().is_none());
    assert!(net.current_leader().is_none());
    let (connected, join) = net.discover_nodes();
    assert!(connected.is_empty());
    assert!(!join);
    assert!(net.isolated_nodes.is_empty());
}

#[test]
fn listening_sets_address_and_identity() {
    let mut net = listening("127.0.0.1:8000");
    assert_eq!(net.get_listen_address(), "127.0.0.1:8000");
    assert_eq!(net.started(), "127.0.0.1:8000");
    let (connected, _) = net.discover_nodes();
    assert_eq!(connected, vec![std_id("127.0.0.1:8000")]);
}

#[test]
fn registering_a_peer_connects_it_once() {
    let mut net = listening("127.0.0.1:8000");
    let id = std_id("127.0.0.1:8001");
    let own = std_id("127.0.0.1:8000");
    let q = net.register_node("127.0.0.1:8001").unwrap();
    assert_eq!(q, StartRequest { id, local_id: own, address: "127.0.0.1:8001".to_string() });
    net.node_started(q.id, start(q.id, q.local_id, q.address));
    assert_eq!(net.get_node(id), Some(&Conn { id, local: own, addr: "127.0.0.1:8001".to_string() }));
    // a second registration asks for no second connection
    assert_eq!(net.register_node("127.0.0.1:8001"), None);
    assert_eq!(net.get_node(id).unwrap().addr, "127.0.0.1:8001");
}

#[test]
fn registering_own_address_does_nothing() {
    let mut net = listening("127.0.0.1:8000");
    assert_eq!(net.register_node("127.0.0.1:8000"), None);
    assert!(net.get_node(std_id("127.0.0.1:8000")).is_none());
}

#[test]
fn disconnect_cuts_a_node_off_and_registration_restores_it() {
    let mut net = listening("127.0.0.1:8000");
    let id = std_id("127.0.0.1:8001");
    register(&mut net, "127.0.0.1:8001");
    net.peer_connected(id);
    net.add_connected_node(id, "127.0.0.1:8001".to_string());
    assert!(net.route_raft_message(id, 5).is_some());
    net.node_disconnect(id);
    assert!(net.get_node(id).is_none());
    assert_eq!(net.isolated_nodes, vec![id]);
    assert!(net.route_raft_message(id, 5).is_none());
    let (connected, _) = net.discover_nodes();
    assert!(!connected.contains(&id));
    register(&mut net, "127.0.0.1:8001");
    assert!(net.isolated_nodes.is_empty());
    assert!(net.route_raft_message(id, 5).is_some());
}

#[test]
fn messages_from_a_cut_off_node_are_dropped() {
    let mut net = listening("127.0.0.1:8000");
    let target = std_id("127.0.0.1:8001");
    register(&mut net, "127.0.0.1:8001");
    net.isolated_nodes.push(77);
    assert!(net.route_raft_message(target, 77).is_none());
    assert!(net.route_raft_message(target, 78).is_some());
    assert!(net.route_raft_message(12345, 78).is_none());
}

#[test]
fn isolate_leaves_the_network_unchanged_and_restore_removes_every_entry() {
    let mut net = listening("127.0.0.1:8000");
    net.isolated_nodes = vec![3, 4, 3];
    net.isolate_node(9);
    net.isolate_node(3);
    assert_eq!(net.isolated_nodes, vec![3, 4, 3]);
    net.restore_node(3);
    assert_eq!(net.isolated_nodes, vec![4]);
    net.restore_node(8);
    assert_eq!(net.isolated_nodes, vec![4]);
}

#[test]
fn a_node_cut_off_twice_is_restored_at_once() {
    let mut net = listening("127.0.0.1:8000");
    net.node_disconnect(5);
    net.node_disconnect(5);
    assert_eq!(net.isolated_nodes, vec![5, 5]);
    net.restore_node(5);
    assert!(net.isolated_nodes.is_empty());
}

#[test]
fn configured_peers_are_known_by_identity() {
    let mut net = listening("127.0.0.1:8000");
    net.peers(vec!["127.0.0.1:8001".to_string(), "127.0.0.1:8002".to_string()]);
    let mut got = net.peers_to_register();
    got.sort();
    assert_eq!(got, vec!["127.0.0.1:8001".to_string(), "127.0.0.1:8002".to_string()]);
}

#[test]
fn configured_peer_address_wins_over_discovered_one() {
    let mut net = listening("127.0.0.1:8000");
    let id = std_id("127.0.0.1:8001");
    let mut known = HashMap::new();
    known.insert(id, "stale".to_string());
    known.insert(42, "127.0.0.1:8042".to_string());
    net.cluster_nodes_received(known);
    net.peers(vec!["127.0.0.1:8001".to_string()]);
    let mut got = net.peers_to_register();
    got.sort();
    assert_eq!(got, vec!["127.0.0.1:8001".to_string(), "127.0.0.1:8042".to_string()]);
    assert!(net.discover_nodes().1);
    for q in net.register_peers(&got) {
        net.node_started(q.id, start(q.id, q.local_id, q.address));
    }
    assert!(net.get_node(id).is_some());
    assert!(net.get_node(std_id("127.0.0.1:8042")).is_some());
}

#[test]
fn get_nodes_includes_this_node() {
    let mut net = listening("127.0.0.1:8000");
    net.add_connected_node(5, "x:1".to_string());
    let nodes = net.get_nodes();
    assert_eq!(nodes.len(), 2);
    assert_eq!(nodes.get(&std_id("127.0.0.1:8000")).map(|s| s.as_str()), Some("127.0.0.1:8000"));
    assert_eq!(nodes.get(&5).map(|s| s.as_str()), Some("x:1"));
}

#[test]
fn handshake_records_and_registers_the_peer() {
    let mut net = listening("127.0.0.1:8000");
    let id = std_id("127.0.0.1:8003");
    let q = net.handshake(id, "127.0.0.1:8003".to_string()).unwrap();
    net.node_started(q.id, start(q.id, q.local_id, q.address));
    assert!(net.get_node(id).is_some());
    assert_eq!(net.get_nodes().get(&id).map(|s| s.as_str()), Some("127.0.0.1:8003"));
}

fn metrics(leader: Option<u64>) -> RaftMetrics {
    RaftMetrics {
        id: 1,
        state: RaftState::Follower,
        current_term: 3,
        last_log_index: 10,
        last_applied: 9,
        current_leader: leader,
        membership_config: MembershipConfig {
            is_in_joint_consensus: false,
            members: vec![1],
            non_voters: vec![],
            removing: vec![],
        },
    }
}

#[test]
fn leader_comes_from_the_last_metrics() {
    let mut net = listening("127.0.0.1:8000");
    net.set_metrics(metrics(None));
    assert_eq!(net.current_leader(), None);
    net.set_metrics(metrics(Some(4)));
    assert_eq!(net.current_leader(), Some(4));
}

#[test]
fn disconnect_follow_up_depends_on_the_leader() {
    let net = listening("127.0.0.1:8000");
    let own = std_id("127.0.0.1:8000");
    assert_eq!(net.disconnect_follow_up(5, 5), DisconnectFollowUp::Retry);
    assert_eq!(net.disconnect_follow_up(5, own), DisconnectFollowUp::RemoveNode);
    assert_eq!(net.disconnect_follow_up(5, 6), DisconnectFollowUp::Nothing);
}

#[test]
fn raft_members_for_each_start_mode() {
    let own = std_id("127.0.0.1:8000");
    let mut net = listening("127.0.0.1:8000");
    let plan = net.init_raft(vec![own, 5, 6], false, |_id, members| members).unwrap();
    assert_eq!(plan.members, vec![own, 5, 6]);
    assert_eq!(plan.add_self, MemoryStorageData::Add(own));
    assert_eq!(net.raft(), Some(&vec![own, 5, 6]));

    let mut joining = listening("127.0.0.1:8000");
    assert!(joining.init_raft(vec![99], true, |_id, members| members).is_none());
    assert_eq!(joining.raft(), Some(&vec![own]));

    let mut joining_many = listening("127.0.0.1:8000");
    assert!(joining_many.init_raft(vec![7, 8], true, |_id, members| members).is_none());
    assert_eq!(joining_many.raft(), Some(&vec![7, 8]));
}

#[test]
fn client_requests_go_to_the_leader() {
    let own = std_id("127.0.0.1:8000");
    let peer = std_id("127.0.0.1:8001");
    let mut net = listening("127.0.0.1:8000");
    register(&mut net, "127.0.0.1:8001");
    net.init_raft(vec![own], false, |_id, m| m);
    match net.route_client_request(own) {
        ClientTarget::Local(r) => assert_eq!(r, &vec![own]),
        ClientTarget::Remote(_) => panic!("expected the local raft node"),
    }
    match net.route_client_request(peer) {
        ClientTarget::Remote(c) => assert_eq!(c.id, peer),
        ClientTarget::Local(_) => panic!("expected the leader's connection"),
    }
    assert!(client_request_needs_resend(ClientOutcome::Internal));
    assert!(client_request_needs_resend(ClientOutcome::ForwardToLeader));
    assert!(!client_request_needs_resend(ClientOutcome::Applied));
}

#[test]
fn config_changes_are_proposed_by_the_leader_only() {
    let own = std_id("127.0.0.1:8000");
    let mut net = listening("127.0.0.1:8000");
    assert_eq!(net.route_config_change(own), ConfigChangeRoute::ForwardToLeader);
    net.init_raft(vec![own], false, |_id, m| m);
    assert_eq!(net.route_config_change(own), ConfigChangeRoute::ProposeLocally);
    assert_eq!(net.route_config_change(own + 1), ConfigChangeRoute::ForwardToLeader);
}

#[test]
fn accepted_config_change_adds_then_removes() {
    let change = ChangeRaftClusterConfig(vec![1, 2], vec![3]);
    let expected = vec![MemoryStorageData::Add(1), MemoryStorageData::Add(2), MemoryStorageData::Remove(3)];
    assert_eq!(change.follow_ups(ProposalOutcome::Accepted), Some(expected.clone()));
    assert_eq!(change.follow_ups(ProposalOutcome::Noop), Some(expected));
    assert_eq!(change.follow_ups(ProposalOutcome::Rejected), None);
}

#[test]
fn data_entries_and_cluster_state() {
    assert_eq!(storage_add_node(3), MemoryStorageData::Add(3));
    assert_eq!(storage_remove_node(3), MemoryStorageData::Remove(3));
    assert_eq!(
        storage_add_data("k".to_string(), "v".to_string()),
        MemoryStorageData::My("k".to_string(), "v".to_string())
    );
    assert!(needs_cluster_nodes(NetworkState::Cluster));
    assert!(!needs_cluster_nodes(NetworkState::SingleNode));
    let mut net = listening("127.0.0.1:8000");
    net.set_cluster_state(NetworkState::Cluster);
    assert_eq!(net.get_cluster_state(), NetworkState::Cluster);
}

#[test]
fn initialised_node_joins_the_cluster() {
    let own = std_id("127.0.0.1:8000");
    let mut founder = listening("127.0.0.1:8000");
    assert_eq!(founder.raft_initialised(), None);
    assert_eq!(founder.get_cluster_state(), NetworkState::Cluster);
    let mut joiner = listening("127.0.0.1:8000");
    joiner.cluster_nodes_received(HashMap::new());
    assert_eq!(joiner.raft_initialised(), Some(own));
    assert_eq!(joiner.get_cluster_state(), NetworkState::Cluster);
}

#[test]
fn raft_messages_go_to_the_local_raft_node_once_it_runs() {
    let own = std_id("127.0.0.1:8000");
    let mut net = listening("127.0.0.1:8000");
    assert!(matches!(net.dispatch_to_raft(MsgKind::VoteRequest), RaftDispatch::EmptyReply));
    net.init_raft(vec![own], false, |_id, m| m);
    for kind in [
        MsgKind::AppendEntriesRequest,
        MsgKind::VoteRequest,
        MsgKind::InstallSnapshotRequest,
        MsgKind::ClientPayload,
        MsgKind::ChangeRaftClusterConfig,
    ] {
        match net.dispatch_to_raft(kind) {
            RaftDispatch::Forward(r) => assert_eq!(r, &vec![own]),
            RaftDispatch::EmptyReply => panic!("expected the local raft node"),
        }
    }
    assert!(matches!(net.dispatch_to_raft(MsgKind::Other), RaftDispatch::EmptyReply));
}

#[test]
fn registering_peers_asks_once_per_new_peer() {
    let mut net = listening("127.0.0.1:8000");
    register(&mut net, "127.0.0.1:8001");
    let peers = vec![
        "127.0.0.1:8000".to_string(),
        "127.0.0.1:8001".to_string(),
        "127.0.0.1:8002".to_string(),
        "127.0.0.1:8002".to_string(),
        "127.0.0.1:8003".to_string(),
    ];
    let reqs = net.register_peers(&peers);
    let ids: Vec<u64> = reqs.iter().map(|q| q.id).collect();
    assert_eq!(ids, vec![std_id("127.0.0.1:8002"), std_id("127.0.0.1:8003")]);
    assert!(reqs.iter().all(|q| q.local_id == std_id("127.0.0.1:8000")));
}
