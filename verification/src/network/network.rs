//! What a node knows of the cluster network, and the decisions it takes on it:
//! which peers to connect, which nodes are cut off, where requests go.
//!
//! The handles of connected peers (`N`) and of the local Raft node (`R`) are
//! the caller's; this module keeps them and decides when they are made and used.
use std::collections::HashMap;
use vstd::prelude::*;
use vstd::std_specs::hash::{axiom_spec_hash_map_iter, spec_hash_map_iter};
use vstd::std_specs::iter::IteratorSpec;

use crate::raft::storage::{nodes_after_all, MembershipConfig, MemoryStorageData};
use crate::utils::{generate_node_id, node_id_spec};
use crate::NodeId;

verus! {

broadcast use vstd::std_specs::hash::group_hash_axioms;

/// How far this node has come in joining a cluster.
#[derive(Clone, Copy, Debug, PartialEq, Eq, Structural)]
pub enum NetworkState {
    Initialized,
    SingleNode,
    Cluster,
}

/// The role of a Raft node.
#[derive(Clone, Copy, Debug, PartialEq, Eq, Structural)]
pub enum RaftState {
    NonVoter,
    Follower,
    Candidate,
    Leader,
}

/// What the local Raft node last reported about itself.
pub struct RaftMetrics {
    pub id: NodeId,
    pub state: RaftState,
    pub current_term: u64,
    pub last_log_index: u64,
    pub last_applied: u64,
    pub current_leader: Option<NodeId>,
    pub membership_config: MembershipConfig,
}

/// A node's knowledge of the cluster network.
pub struct Network<N, R> {
    id: NodeId,
    address: Option<String>,
    raft: Option<R>,
    static_peers: HashMap<NodeId, String>,
    nodes: HashMap<NodeId, N>,
    pub isolated_nodes: Vec<NodeId>,
    all_connected_nodes: HashMap<NodeId, String>,
    register_server: String,
    nodes_connected: Vec<NodeId>,
    state: NetworkState,
    pub metrics: Option<RaftMetrics>,
    join_mode: bool,
}

pub struct NetworkView<N, R> {
    pub id: NodeId,
    /// The address this node listens on.
    pub address: Option<Seq<char>>,
    pub raft: Option<R>,
    /// The peers named in the configuration, by identity.
    pub static_peers: Map<NodeId, String>,
    /// The peers this node has a connection for.
    pub nodes: Map<NodeId, N>,
    /// The nodes whose traffic is cut off.
    pub isolated_nodes: Seq<NodeId>,
    /// Every node known to be in the cluster, with its address.
    pub all_connected_nodes: Map<NodeId, String>,
    pub register_server: Seq<char>,
    /// The nodes that have connected, in the order they did.
    pub nodes_connected: Seq<NodeId>,
    pub state: NetworkState,
    pub metrics: Option<RaftMetrics>,
    pub join_mode: bool,
}

pub open spec fn opt_view(s: Option<String>) -> Option<Seq<char>> {
    match s {
        Some(t) => Some(t@),
        None => None,
    }
}

impl<N, R> View for Network<N, R> {
    type V = NetworkView<N, R>;

    closed spec fn view(&self) -> NetworkView<N, R> {
        NetworkView {
            id: self.id,
            address: opt_view(self.address),
            raft: self.raft,
            static_peers: self.static_peers@,
            nodes: self.nodes@,
            isolated_nodes: self.isolated_nodes@,
            all_connected_nodes: self.all_connected_nodes@,
            register_server: self.register_server@,
            nodes_connected: self.nodes_connected@,
            state: self.state,
            metrics: self.metrics,
            join_mode: self.join_mode,
        }
    }
}

/// `m` with each peer address of `peers` added under its identity, later ones winning.
pub open spec fn with_peers(m: Map<NodeId, String>, peers: Seq<String>) -> Map<NodeId, String>
    decreases peers.len(),
{
    if peers.len() == 0 {
        m
    } else {
        with_peers(m, peers.drop_last()).insert(node_id_spec(peers.last()@), peers.last())
    }
}

/// The ids of `v` other than `id`, in order.
pub fn ids_without(v: &Vec<NodeId>, id: NodeId) -> (r: Vec<NodeId>)
    ensures
        r@ == without(v@, id),
        !r@.contains(id),
{
    let mut kept: Vec<NodeId> = Vec::new();
    let mut i: usize = 0;
    while i < v.len()
        invariant
            i <= v@.len(),
            kept@ == without(v@.take(i as int), id),
        decreases v@.len() - i,
    {
        let x = v[i];
        if x != id {
            kept.push(x);
        }
        proof {
            reveal(Seq::filter);
            let t = v@.take(i + 1);
            assert(t.drop_last() =~= v@.take(i as int));
            assert(t.last() == x);
        }
        i = i + 1;
    }
    assert(v@.take(i as int) =~= v@);
    proof {
        lemma_without_excludes(v@, id);
    }
    kept
}

/// No occurrence of `x` is left in `without(s, x)`.
pub proof fn lemma_without_excludes(s: Seq<NodeId>, x: NodeId)
    ensures
        !without(s, x).contains(x),
{
    let w = without(s, x);
    if w.contains(x) {
        let i = choose|i: int| 0 <= i < w.len() && w[i] == x;
        s.lemma_filter_pred(|y: NodeId| y != x, i);
    }
}

impl<N, R> Network<N, R> {
    /// A node that knows nothing yet, registered with the discovery server `register_server`.
    pub fn new(register_server: String) -> (r: Self)
        ensures
            r@.id == 0,
            r@.address is None,
            r@.raft is None,
            r@.static_peers == Map::<NodeId, String>::empty(),
            r@.nodes == Map::<NodeId, N>::empty(),
            r@.isolated_nodes == Seq::<NodeId>::empty(),
            r@.all_connected_nodes == Map::<NodeId, String>::empty(),
            r@.register_server == register_server@,
            r@.nodes_connected == Seq::<NodeId>::empty(),
            r@.state == NetworkState::Initialized,
            r@.metrics is None,
            !r@.join_mode,
    {
        Network {
            id: 0,
            address: None,
            static_peers: HashMap::new(),
            nodes: HashMap::new(),
            raft: None,
            all_connected_nodes: HashMap::new(),
            register_server,
            nodes_connected: Vec::new(),
            isolated_nodes: Vec::new(),
            state: NetworkState::Initialized,
            metrics: None,
            join_mode: false,
        }
    }

    /// Adds the configured peer addresses, each under its identity.
    pub fn peers(&mut self, peers: Vec<String>)
        ensures
            final(self)@ == (NetworkView {
                static_peers: with_peers(old(self)@.static_peers, peers@),
                ..old(self)@
            }),
    {
        let mut i: usize = 0;
        while i < peers.len()
            invariant
                i <= peers@.len(),
                self@ == (NetworkView {
                    static_peers: with_peers(old(self)@.static_peers, peers@.take(i as int)),
                    ..old(self)@
                }),
            decreases peers@.len() - i,
        {
            let peer = peers[i].clone();
            let id = generate_node_id(peer.as_str());
            self.static_peers.insert(id, peer);
            proof {
                let t = peers@.take(i + 1);
                assert(t.drop_last() =~= peers@.take(i as int));
                assert(t.last() == peers@[i as int]);
            }
            i = i + 1;
        }
        assert(peers@.take(i as int) =~= peers@);
    }

    /// The connection to the node `id`, if there is one.
    pub fn get_node(&self, id: NodeId) -> (r: Option<&N>)
        ensures
            match r {
                Some(n) => self@.nodes.contains_key(id) && *n == self@.nodes[id],
                None => !self@.nodes.contains_key(id),
            },
    {
        self.nodes.get(&id)
    }

    /// Leaves the network as it is: a node already cut off stays so, and no
    /// other is cut off here.
    pub fn isolate_node(&mut self, id: NodeId)
        ensures
            final(self)@ == old(self)@,
    {
        let mut i: usize = 0;
        while i < self.isolated_nodes.len()
            invariant
                i <= self.isolated_nodes@.len(),
            decreases self.isolated_nodes@.len() - i,
        {
            if self.isolated_nodes[i] == id {
                return;
            }
            i = i + 1;
        }
    }

    /// Restores the traffic of `id`: all its entries among the cut-off nodes go,
    /// the others stay in order.
    pub fn restore_node(&mut self, id: NodeId)
        ensures
            final(self)@ == (NetworkView {
                isolated_nodes: without(old(self)@.isolated_nodes, id),
                ..old(self)@
            }),
            !final(self)@.isolated_nodes.contains(id),
    {
        self.isolated_nodes = ids_without(&self.isolated_nodes, id);
    }

    /// Listens on `address`; the node's identity is derived from it.
    pub fn listen(&mut self, address: &str)
        ensures
            final(self)@ == (NetworkView {
                address: Some(address@),
                id: node_id_spec(address@),
                ..old(self)@
            }),
    {
        self.address = Some(address.to_owned());
        self.id = generate_node_id(address);
    }

    /// Registers the peer listening on `peer_addr`, unless that is this node's
    /// own address: its traffic is restored, and when there is no connection
    /// to it yet, the result asks for one to be started (see
    /// [`Network::node_started`]). Nothing is asked for this node's own
    /// address, nor for a peer already connected.
    pub fn register_node(&mut self, peer_addr: &str) -> (r: Option<StartRequest>)
        requires
            old(self)@.address is Some,
        ensures
            ({
                let id = node_id_spec(peer_addr@);
                let pre = old(self)@;
                let post = final(self)@;
                if pre.address == Some(peer_addr@) {
                    post == pre && r is None
                } else {
                    &&& post == (NetworkView { isolated_nodes: without(pre.isolated_nodes, id), ..pre })
                    &&& pre.nodes.contains_key(id) ==> r is None
                    &&& !pre.nodes.contains_key(id) ==> (r matches Some(q) && q.id == id
                        && q.local_id == pre.id && q.address@ == peer_addr@)
                }
            }),
    {
        let id = generate_node_id(peer_addr);
        let local_id = self.id;
        let peer = peer_addr.to_owned();
        let own = match &self.address {
            Some(a) => a.clone(),
            None => String::new(),
        };
        if peer == own {
            return None;
        }
        self.restore_node(id);
        if self.nodes.get(&id).is_none() {
            Some(StartRequest { id, local_id, address: peer })
        } else {
            None
        }
    }

    /// The connection a [`StartRequest`] asked for was made: `node` is kept
    /// as the connection to `id`.
    pub fn node_started(&mut self, id: NodeId, node: N)
        ensures
            final(self)@ == (NetworkView { nodes: old(self)@.nodes.insert(id, node), ..old(self)@ }),
    {
        self.nodes.insert(id, node);
    }
}

/// A connection to start: to the peer `id` listening on `address`, from this
/// node, `local_id`.
#[derive(Debug, PartialEq, Eq)]
pub struct StartRequest {
    pub id: NodeId,
    pub local_id: NodeId,
    pub address: String,
}

/// The peers that the requests ask to connect, in order.
pub open spec fn request_ids(rs: Seq<StartRequest>) -> Seq<NodeId> {
    rs.map_values(|q: StartRequest| q.id)
}

/// `m` with the entries of `over` written over it.
pub open spec fn merged_peers(m: Map<NodeId, String>, over: Map<NodeId, String>) -> Map<
    NodeId,
    String,
> {
    m.union_prefer_right(over)
}

/// `s` without any occurrence of `x`.
pub open spec fn without(s: Seq<NodeId>, x: NodeId) -> Seq<NodeId> {
    s.filter(|y: NodeId| y != x)
}

/// The cut-off nodes after registering each address of `peers` in turn:
/// each address other than `own` restores its node.
pub open spec fn restored_by(isolated: Seq<NodeId>, peers: Seq<String>, own: Seq<char>) -> Seq<
    NodeId,
>
    decreases peers.len(),
{
    if peers.len() == 0 {
        isolated
    } else {
        let before = restored_by(isolated, peers.drop_last(), own);
        if peers.last()@ == own {
            before
        } else {
            without(before, node_id_spec(peers.last()@))
        }
    }
}

/// The identities of the addresses in `peers`, leaving out `own`.
pub open spec fn peer_ids(peers: Seq<String>, own: Seq<char>) -> Set<NodeId> {
    Set::new(
        |k: NodeId|
            exists|i: int|
                0 <= i < peers.len() && (#[trigger] peers[i])@ != own && node_id_spec(peers[i]@) == k,
    )
}

/// The leader the Raft node last reported, if any.
pub open spec fn reported_leader(metrics: Option<RaftMetrics>) -> Option<NodeId> {
    match metrics {
        Some(m) => m.current_leader,
        None => None,
    }
}

/// What to do after a peer disconnected, once the leader is known.
#[derive(Clone, Copy, Debug, PartialEq, Eq, Structural)]
pub enum DisconnectFollowUp {
    /// The leader itself went away: handle the disconnection again a moment later.
    Retry,
    /// This node leads: propose removing the peer from the cluster.
    RemoveNode,
    /// Another node leads and will act.
    Nothing,
}

/// How the Raft node answered a client request.
#[derive(Clone, Copy, Debug, PartialEq, Eq, Structural)]
pub enum ClientOutcome {
    Applied,
    /// The Raft node failed internally.
    Internal,
    /// The application data was refused.
    Application,
    /// The request reached a node that does not lead.
    ForwardToLeader,
}

/// Where a change of the cluster's membership is proposed.
#[derive(Clone, Copy, Debug, PartialEq, Eq, Structural)]
pub enum ConfigChangeRoute {
    /// This node leads and runs a Raft node: propose it here.
    ProposeLocally,
    /// Send it to the leader.
    ForwardToLeader,
}

/// How a proposed membership change ended.
#[derive(Clone, Copy, Debug, PartialEq, Eq, Structural)]
pub enum ProposalOutcome {
    Accepted,
    /// The change was already in force.
    Noop,
    Rejected,
}

/// A request to change the membership: the nodes to add and those to remove.
pub struct ChangeRaftClusterConfig(pub Vec<NodeId>, pub Vec<NodeId>);

/// The data entry that adds a node to the cluster's node set.
pub fn storage_add_node(id: NodeId) -> (r: MemoryStorageData)
    ensures
        r == MemoryStorageData::Add(id),
{
    MemoryStorageData::Add(id)
}

/// The data entry that removes a node from the cluster's node set.
pub fn storage_remove_node(id: NodeId) -> (r: MemoryStorageData)
    ensures
        r == MemoryStorageData::Remove(id),
{
    MemoryStorageData::Remove(id)
}

/// The data entry that stores `value` under the user's `key`.
pub fn storage_add_data(key: String, value: String) -> (r: MemoryStorageData)
    ensures
        r == MemoryStorageData::My(key, value),
{
    MemoryStorageData::My(key, value)
}

/// The data entries that carry out an accepted membership change, in order:
/// one `Add` per node to add, then one `Remove` per node to remove. `None`
/// when the proposal was rejected.
pub open spec fn follow_up_entries(add: Seq<NodeId>, remove: Seq<NodeId>) -> Seq<MemoryStorageData> {
    add.map_values(|id: NodeId| MemoryStorageData::Add(id)) + remove.map_values(
        |id: NodeId| MemoryStorageData::Remove(id),
    )
}

impl ChangeRaftClusterConfig {
    /// The data entries to submit once the proposal ended with `outcome`:
    /// those of [`follow_up_entries`] when it was accepted or already in force,
    /// none when it was rejected.
    pub fn follow_ups(&self, outcome: ProposalOutcome) -> (r: Option<Vec<MemoryStorageData>>)
        ensures
            outcome == ProposalOutcome::Rejected ==> r is None,
            outcome != ProposalOutcome::Rejected ==> r is Some && r.unwrap()@ == follow_up_entries(
                self.0@,
                self.1@,
            ),
    {
        if outcome == ProposalOutcome::Rejected {
            return None;
        }
        let mut out: Vec<MemoryStorageData> = Vec::new();
        let mut i: usize = 0;
        while i < self.0.len()
            invariant
                i <= self.0@.len(),
                out@ == self.0@.take(i as int).map_values(|id: NodeId| MemoryStorageData::Add(id)),
            decreases self.0@.len() - i,
        {
            out.push(storage_add_node(self.0[i]));
            i = i + 1;
            assert(out@ =~= self.0@.take(i as int).map_values(
                |id: NodeId| MemoryStorageData::Add(id),
            ));
        }
        assert(self.0@.take(i as int) =~= self.0@);
        let ghost adds = out@;
        let mut j: usize = 0;
        while j < self.1.len()
            invariant
                j <= self.1@.len(),
                adds == self.0@.map_values(|id: NodeId| MemoryStorageData::Add(id)),
                out@ == adds + self.1@.take(j as int).map_values(
                    |id: NodeId| MemoryStorageData::Remove(id),
                ),
            decreases self.1@.len() - j,
        {
            out.push(storage_remove_node(self.1[j]));
            j = j + 1;
            assert(out@ =~= adds + self.1@.take(j as int).map_values(
                |id: NodeId| MemoryStorageData::Remove(id),
            ));
        }
        assert(self.1@.take(j as int) =~= self.1@);
        Some(out)
    }
}

/// Whether a client request is sent again after the answer `outcome`: after
/// an internal failure or a redirection to the leader it is; once applied it is not.
pub fn client_request_needs_resend(outcome: ClientOutcome) -> (r: bool)
    requires
        outcome != ClientOutcome::Application,
    ensures
        r == (outcome == ClientOutcome::Internal || outcome == ClientOutcome::ForwardToLeader),
{
    match outcome {
        ClientOutcome::Applied => false,
        ClientOutcome::Internal => true,
        ClientOutcome::ForwardToLeader => true,
        ClientOutcome::Application => false,
    }
}

/// Whether the discovery server's cluster state calls for fetching its node list.
pub fn needs_cluster_nodes(state: NetworkState) -> (r: bool)
    ensures
        r == (state == NetworkState::Cluster),
{
    state == NetworkState::Cluster
}

impl<N, R> Network<N, R> {
    /// Starts the node: it counts itself among the connected nodes. Returns the
    /// address to listen on.
    pub fn started(&mut self) -> (r: String)
        requires
            old(self)@.address is Some,
        ensures
            Some(r@) == old(self)@.address,
            final(self)@ == (NetworkView {
                nodes_connected: old(self)@.nodes_connected.push(old(self)@.id),
                ..old(self)@
            }),
    {
        let address = match &self.address {
            Some(a) => a.clone(),
            None => String::new(),
        };
        self.nodes_connected.push(self.id);
        address
    }

    /// Takes the discovery server's list of the cluster's nodes: they become
    /// the known nodes, and this node joins an existing cluster.
    pub fn cluster_nodes_received(&mut self, nodes: HashMap<NodeId, String>)
        ensures
            final(self)@ == (NetworkView {
                all_connected_nodes: nodes@,
                join_mode: true,
                ..old(self)@
            }),
    {
        self.all_connected_nodes = nodes;
        self.join_mode = true;
    }

    /// The addresses to register once discovery is over: those of the known
    /// nodes and of the configured peers, a configured peer's address winning
    /// for the same identity; each identity once, in no set order.
    pub fn peers_to_register(&self) -> (r: Vec<String>)
        ensures
            exists|ks: Seq<NodeId>|
                {
                    let m = merged_peers(self@.all_connected_nodes, self@.static_peers);
                    &&& #[trigger] ks.no_duplicates()
                    &&& ks.to_set() == m.dom()
                    &&& r@ == ks.map_values(|k: NodeId| m[k])
                },
    {
        let ghost all = self@.all_connected_nodes;
        let ghost st = self@.static_peers;
        let ghost m = merged_peers(all, st);
        let mut r: Vec<String> = Vec::new();
        let ghost mut ks: Seq<NodeId> = Seq::empty();
        let ghost all_seq = spec_hash_map_iter(&self.all_connected_nodes).remaining();
        let ghost mut org: Seq<int> = Seq::empty();
        proof {
            axiom_spec_hash_map_iter(&self.all_connected_nodes);
        }
        for kv in it: self.all_connected_nodes.iter()
            invariant
                it.seq() == all_seq,
                all == self@.all_connected_nodes,
                st == self@.static_peers,
                m == merged_peers(all, st),
                all_seq.len() == all.dom().len(),
                forall|i: int|
                    #![trigger all_seq[i]]
                    0 <= i < all_seq.len() ==> all.contains_key(*all_seq[i].0) && all[*all_seq[i].0]
                        == *all_seq[i].1,
                forall|k: NodeId| #[trigger] all.contains_key(k) ==> all_seq.contains((&k, &all[k])),
                all_seq.no_duplicates(),
                ks.no_duplicates(),
                org.len() == ks.len(),
                forall|j: int| 0 <= j < ks.len() ==> !st.contains_key(#[trigger] ks[j]),
                forall|j: int| 0 <= j < ks.len() ==> 0 <= #[trigger] org[j] < all_seq.len(),
                forall|j: int| 0 <= j < ks.len() ==> *all_seq[org[j]].0 == #[trigger] ks[j],
                forall|j: int| 0 <= j < ks.len() ==> #[trigger] org[j] < it.index(),
                forall|i: int|
                    0 <= i < it.index() && !st.contains_key(*(#[trigger] all_seq[i]).0)
                        ==> ks.contains(*all_seq[i].0),
                r@ == ks.map_values(|k: NodeId| m[k]),
        {
            let (k, v) = kv;
            let ghost idx = it.index();
            assert(all_seq[idx] == kv);
            if !self.static_peers.contains_key(k) {
                proof {
                    assert forall|j: int| 0 <= j < ks.len() implies ks[j] != *k by {
                        if ks[j] == *k {
                            assert(all_seq[org[j]] == all_seq[idx]);
                        }
                    }
                }
                let ghost old_ks = ks;
                let ghost old_org = org;
                r.push(v.clone());
                proof {
                    ks = ks.push(*k);
                    org = org.push(idx);
                    assert(r@ =~= ks.map_values(|k: NodeId| m[k]));
                    assert forall|j: int| 0 <= j < ks.len() implies !st.contains_key(
                        #[trigger] ks[j],
                    ) && 0 <= org[j] < all_seq.len() && *all_seq[org[j]].0 == ks[j] && org[j] < idx
                        + 1 by {
                        if j < old_ks.len() {
                            assert(ks[j] == old_ks[j]);
                            assert(org[j] == old_org[j]);
                        }
                    }
                    assert forall|i: int|
                        0 <= i < idx + 1 && !st.contains_key(
                            *(#[trigger] all_seq[i]).0,
                        ) implies ks.contains(*all_seq[i].0) by {
                        if i < idx {
                            let j = choose|j: int| 0 <= j < old_ks.len() && old_ks[j] == *all_seq[i].0;
                            assert(ks[j] == old_ks[j]);
                        } else {
                            assert(ks[ks.len() - 1] == *k);
                        }
                    }
                }
            }
        }
        let ghost ks1 = ks;
        let ghost st_seq = spec_hash_map_iter(&self.static_peers).remaining();
        proof {
            axiom_spec_hash_map_iter(&self.static_peers);
        }
        for kv in it: self.static_peers.iter()
            invariant
                it.seq() == st_seq,
                all == self@.all_connected_nodes,
                st == self@.static_peers,
                m == merged_peers(all, st),
                st_seq.len() == st.dom().len(),
                forall|i: int|
                    #![trigger st_seq[i]]
                    0 <= i < st_seq.len() ==> st.contains_key(*st_seq[i].0) && st[*st_seq[i].0]
                        == *st_seq[i].1,
                forall|k: NodeId| #[trigger] st.contains_key(k) ==> st_seq.contains((&k, &st[k])),
                st_seq.no_duplicates(),
                forall|j: int| 0 <= j < ks1.len() ==> !st.contains_key(#[trigger] ks1[j]),
                forall|j: int| 0 <= j < ks1.len() ==> all.contains_key(#[trigger] ks1[j]),
                forall|k: NodeId| all.contains_key(k) && !st.contains_key(k) ==> ks1.contains(k),
                ks1.no_duplicates(),
                ks.len() == ks1.len() + it.index(),
                ks.take(ks1.len() as int) == ks1,
                forall|i: int|
                    0 <= i < it.index() ==> ks[ks1.len() + i] == *(#[trigger] st_seq[i]).0,
                ks.no_duplicates(),
                r@ == ks.map_values(|k: NodeId| m[k]),
        {
            let (k, v) = kv;
            let ghost idx = it.index();
            assert(st_seq[idx] == kv);
            proof {
                assert forall|j: int| 0 <= j < ks.len() implies ks[j] != *k by {
                    if j < ks1.len() {
                        assert(ks[j] == ks1[j]);
                    } else {
                        let i = j - ks1.len();
                        assert(ks[ks1.len() + i] == *st_seq[i].0);
                        if ks[j] == *k {
                            assert(st_seq[i] == st_seq[idx]);
                        }
                    }
                }
            }
            let ghost old_ks = ks;
            r.push(v.clone());
            proof {
                ks = ks.push(*k);
                assert(r@ =~= ks.map_values(|k: NodeId| m[k]));
                assert(ks.take(ks1.len() as int) =~= old_ks.take(ks1.len() as int));
                assert forall|i: int|
                    0 <= i < idx + 1 implies ks[ks1.len() + i] == *(#[trigger] st_seq[i]).0 by {
                    if i < idx {
                        assert(ks[ks1.len() + i] == old_ks[ks1.len() + i]);
                    }
                }
            }
        }
        proof {
            assert forall|k: NodeId| ks.contains(k) implies m.dom().contains(k) by {
                let j = choose|j: int| 0 <= j < ks.len() && ks[j] == k;
                if j < ks1.len() {
                    assert(ks[j] == ks1[j]);
                } else {
                    let i = j - ks1.len();
                    assert(ks[ks1.len() + i] == *st_seq[i].0);
                }
            }
            assert forall|k: NodeId| m.dom().contains(k) implies ks.contains(k) by {
                if st.contains_key(k) {
                    assert(st_seq.contains((&k, &st[k])));
                    let i = choose|i: int| 0 <= i < st_seq.len() && st_seq[i] == (&k, &st[k]);
                    assert(ks[ks1.len() + i] == *st_seq[i].0);
                } else {
                    let j = choose|j: int| 0 <= j < ks1.len() && ks1[j] == k;
                    assert(ks[j] == ks1[j]);
                }
            }
            assert(ks.to_set() =~= m.dom());
        }
        r
    }
}

/// The members the Raft node starts with: only this node when it joins an
/// existing cluster and knows no other node, else the connected nodes.
pub open spec fn raft_members(id: NodeId, nodes: Seq<NodeId>, join_mode: bool) -> Seq<NodeId> {
    if join_mode && nodes.len() == 1 {
        seq![id]
    } else {
        nodes
    }
}

/// How a node that founds the cluster initialises it: the members to
/// initialise the cluster with, then the data entry that adds the node itself.
pub struct ClusterInit {
    pub members: Vec<NodeId>,
    pub add_self: MemoryStorageData,
}

/// Where a client request goes, with the handle to send it through.
pub enum ClientTarget<'a, N, R> {
    /// The local Raft node, which leads.
    Local(&'a R),
    /// The connection to the leader.
    Remote(&'a N),
}

/// The kinds of message a peer hands to this node's Raft node.
#[derive(Clone, Copy, Debug, PartialEq, Eq, Structural)]
pub enum MsgKind {
    AppendEntriesRequest,
    VoteRequest,
    InstallSnapshotRequest,
    ClientPayload,
    ChangeRaftClusterConfig,
    /// Any other kind, which the Raft node does not take.
    Other,
}

/// What becomes of a message handed to this node's Raft node.
pub enum RaftDispatch<'a, R> {
    /// It is answered at once with an empty body.
    EmptyReply,
    /// It goes to the local Raft node, whose answer is the reply.
    Forward(&'a R),
}

impl<N, R> Network<N, R> {
    /// Registers each address of `peers` in turn, as [`Network::register_node`]
    /// does: the traffic of each is restored, and the result asks, once each,
    /// for a connection to every peer named that is not this node and has no
    /// connection yet, in the order they are named.
    pub fn register_peers(&mut self, peers: &Vec<String>) -> (r: Vec<StartRequest>)
        requires
            old(self)@.address is Some,
        ensures
            ({
                let pre = old(self)@;
                let own = pre.address.unwrap();
                &&& final(self)@ == (NetworkView {
                    isolated_nodes: restored_by(pre.isolated_nodes, peers@, own),
                    ..pre
                })
                &&& request_ids(r@).to_set() == peer_ids(peers@, own).difference(pre.nodes.dom())
                &&& request_ids(r@).no_duplicates()
                &&& forall|j: int|
                    0 <= j < r@.len() ==> {
                        &&& (#[trigger] r@[j]).local_id == pre.id
                        &&& node_id_spec(r@[j].address@) == r@[j].id
                        &&& r@[j].address@ != own
                        &&& exists|i: int| 0 <= i < peers@.len() && peers@[i]@ == r@[j].address@
                    }
            }),
    {
        let ghost pre = self@;
        let ghost own = pre.address.unwrap();
        let mut r: Vec<StartRequest> = Vec::new();
        let mut ids: Vec<NodeId> = Vec::new();
        let mut i: usize = 0;
        assert(peer_ids(peers@.take(0), own) =~= Set::<NodeId>::empty());
        assert(ids@.to_set() =~= Set::<NodeId>::empty());
        while i < peers.len()
            invariant
                i <= peers@.len(),
                pre == old(self)@,
                own == pre.address.unwrap(),
                pre.address is Some,
                self@ == (NetworkView {
                    isolated_nodes: restored_by(pre.isolated_nodes, peers@.take(i as int), own),
                    ..pre
                }),
                ids@ == request_ids(r@),
                ids@.to_set() == peer_ids(peers@.take(i as int), own).difference(pre.nodes.dom()),
                ids@.no_duplicates(),
                forall|j: int|
                    0 <= j < r@.len() ==> {
                        &&& (#[trigger] r@[j]).local_id == pre.id
                        &&& node_id_spec(r@[j].address@) == r@[j].id
                        &&& r@[j].address@ != own
                        &&& exists|k: int| 0 <= k < peers@.len() && peers@[k]@ == r@[j].address@
                    },
            decreases peers@.len() - i,
        {
            let q = self.register_node(peers[i].as_str());
            let ghost old_ids = ids@;
            let ghost old_r = r@;
            proof {
                let t = peers@.take(i + 1);
                let p = peers@[i as int];
                assert(t.drop_last() =~= peers@.take(i as int));
                assert(t.last() == p);
                let id = node_id_spec(p@);
                let before_ids = peer_ids(peers@.take(i as int), own);
                assert forall|k: NodeId|
                    peer_ids(t, own).contains(k) <==> (before_ids.contains(k) || (p@ != own && k
                        == id)) by {
                    if peer_ids(t, own).contains(k) {
                        let j = choose|j: int|
                            0 <= j < t.len() && (#[trigger] t[j])@ != own && node_id_spec(t[j]@) == k;
                        if j < i {
                            assert(peers@.take(i as int)[j] == t[j]);
                        }
                    }
                    if before_ids.contains(k) {
                        let pt = peers@.take(i as int);
                        let j = choose|j: int|
                            0 <= j < i && (#[trigger] pt[j])@ != own && node_id_spec(pt[j]@) == k;
                        assert(t[j] == peers@.take(i as int)[j]);
                    }
                    if p@ != own && k == id {
                        assert(t[i as int] == p);
                    }
                }
            }
            match q {
                Some(q) => {
                    if !contains_id(&ids, q.id) {
                        let qid = q.id;
                        r.push(q);
                        ids.push(qid);
                        proof {
                            assert(ids@ =~= request_ids(r@));
                            assert(ids@ =~= old_ids.push(qid));
                            assert forall|x: NodeId| ids@.contains(x) <==> (old_ids.contains(x) || x
                                == qid) by {
                                if ids@.contains(x) {
                                    let j = choose|j: int| 0 <= j < ids@.len() && ids@[j] == x;
                                    if j < old_ids.len() {
                                        assert(old_ids[j] == x);
                                    }
                                }
                                if old_ids.contains(x) {
                                    let j = choose|j: int| 0 <= j < old_ids.len() && old_ids[j] == x;
                                    assert(ids@[j] == x);
                                }
                                if x == qid {
                                    assert(ids@[ids@.len() - 1] == x);
                                }
                            }
                            assert(ids@.to_set() =~= old_ids.to_set().insert(qid));
                            assert forall|a: int, b: int|
                                0 <= a < ids@.len() && 0 <= b < ids@.len() && a != b implies ids@[a]
                                != ids@[b] by {
                                if a < old_ids.len() && b < old_ids.len() {
                                    assert(ids@[a] == old_ids[a] && ids@[b] == old_ids[b]);
                                } else if a < old_ids.len() {
                                    assert(old_ids.contains(ids@[a]));
                                } else if b < old_ids.len() {
                                    assert(old_ids.contains(ids@[b]));
                                }
                            }
                            assert(r@[r@.len() - 1].address@ == peers@[i as int]@);
                            assert forall|j: int| 0 <= j < r@.len() implies exists|k: int|
                                0 <= k < peers@.len() && peers@[k]@ == (#[trigger] r@[j]).address@ by {
                                if j < old_r.len() {
                                    assert(r@[j] == old_r[j]);
                                } else {
                                    assert(peers@[i as int]@ == r@[j].address@);
                                }
                            }
                        }
                    }
                },
                None => {},
            }
            proof {
                let t = peers@.take(i + 1);
                assert(ids@.to_set() =~= peer_ids(t, own).difference(pre.nodes.dom()));
            }
            i = i + 1;
        }
        assert(peers@.take(i as int) =~= peers@);
        r
    }

    /// The known nodes with this node's own address added under its identity.
    pub fn get_nodes(&mut self) -> (r: HashMap<NodeId, String>)
        requires
            old(self)@.address is Some,
        ensures
            final(self)@.all_connected_nodes.dom() == old(self)@.all_connected_nodes.dom().insert(
                old(self)@.id,
            ),
            final(self)@.all_connected_nodes[old(self)@.id]@ == old(self)@.address.unwrap(),
            forall|k: NodeId|
                k != old(self)@.id && #[trigger] old(self)@.all_connected_nodes.contains_key(k)
                    ==> final(self)@.all_connected_nodes[k] == old(self)@.all_connected_nodes[k],
            final(self)@ == (NetworkView {
                all_connected_nodes: final(self)@.all_connected_nodes,
                ..old(self)@
            }),
            r@ == final(self)@.all_connected_nodes,
    {
        let address = match &self.address {
            Some(a) => a.clone(),
            None => String::new(),
        };
        self.all_connected_nodes.insert(self.id, address);
        self.all_connected_nodes.clone()
    }

    /// Records that the node `id` is in the cluster at `address`.
    pub fn add_connected_node(&mut self, id: NodeId, address: String)
        ensures
            final(self)@ == (NetworkView {
                all_connected_nodes: old(self)@.all_connected_nodes.insert(id, address),
                ..old(self)@
            }),
    {
        self.all_connected_nodes.insert(id, address);
    }

    /// A peer introduced itself as `id` at `address`: it is recorded among the
    /// known nodes, then registered as [`Network::register_node`] does.
    pub fn handshake(&mut self, id: NodeId, address: String) -> (r: Option<StartRequest>)
        requires
            old(self)@.address is Some,
        ensures
            ({
                let mid = NetworkView {
                    all_connected_nodes: old(self)@.all_connected_nodes.insert(id, address),
                    ..old(self)@
                };
                let nid = node_id_spec(address@);
                let post = final(self)@;
                if mid.address == Some(address@) {
                    post == mid && r is None
                } else {
                    &&& post == (NetworkView { isolated_nodes: without(mid.isolated_nodes, nid), ..mid })
                    &&& mid.nodes.contains_key(nid) ==> r is None
                    &&& !mid.nodes.contains_key(nid) ==> (r matches Some(q) && q.id == nid
                        && q.local_id == mid.id && q.address@ == address@)
                }
            }),
    {
        self.all_connected_nodes.insert(id, address.clone());
        self.register_node(address.as_str())
    }

    /// The node `id` has connected.
    pub fn peer_connected(&mut self, id: NodeId)
        ensures
            final(self)@ == (NetworkView {
                nodes_connected: old(self)@.nodes_connected.push(id),
                ..old(self)@
            }),
    {
        self.nodes_connected.push(id);
    }

    /// The node `id` disconnected: it is no longer connected nor known, its
    /// connection is dropped, and its traffic is cut off.
    pub fn node_disconnect(&mut self, id: NodeId)
        ensures
            final(self)@ == (NetworkView {
                nodes_connected: without(old(self)@.nodes_connected, id),
                all_connected_nodes: old(self)@.all_connected_nodes.remove(id),
                nodes: old(self)@.nodes.remove(id),
                isolated_nodes: old(self)@.isolated_nodes.push(id),
                ..old(self)@
            }),
    {
        let kept = ids_without(&self.nodes_connected, id);
        self.nodes_connected = kept;
        self.all_connected_nodes.remove(&id);
        self.nodes.remove(&id);
        self.isolated_nodes.push(id);
    }

    /// What follows a disconnection of `id` once `leader` is known to lead.
    pub fn disconnect_follow_up(&self, id: NodeId, leader: NodeId) -> (r: DisconnectFollowUp)
        ensures
            r == (if leader == id {
                DisconnectFollowUp::Retry
            } else if leader == self@.id {
                DisconnectFollowUp::RemoveNode
            } else {
                DisconnectFollowUp::Nothing
            }),
    {
        if leader == id {
            DisconnectFollowUp::Retry
        } else if leader == self.id {
            DisconnectFollowUp::RemoveNode
        } else {
            DisconnectFollowUp::Nothing
        }
    }

    /// Keeps what the Raft node reported about itself.
    pub fn set_metrics(&mut self, metrics: RaftMetrics)
        ensures
            final(self)@ == (NetworkView { metrics: Some(metrics), ..old(self)@ }),
    {
        self.metrics = Some(metrics);
    }

    /// The current leader, as last reported; `None` until one is known.
    pub fn current_leader(&self) -> (r: Option<NodeId>)
        ensures
            r == reported_leader(self@.metrics),
            self@.metrics is None ==> r is None,
            self@.metrics matches Some(m) ==> r == m.current_leader,
    {
        match &self.metrics {
            Some(m) => m.current_leader,
            None => None,
        }
    }

    /// The nodes that have connected so far, and whether this node joins an existing cluster.
    pub fn discover_nodes(&self) -> (r: (Vec<NodeId>, bool))
        ensures
            r.0@ == self@.nodes_connected,
            r.1 == self@.join_mode,
    {
        let mut v: Vec<NodeId> = Vec::new();
        let mut i: usize = 0;
        while i < self.nodes_connected.len()
            invariant
                i <= self.nodes_connected@.len(),
                v@ == self.nodes_connected@.take(i as int),
            decreases self.nodes_connected@.len() - i,
        {
            v.push(self.nodes_connected[i]);
            i = i + 1;
            assert(v@ =~= self.nodes_connected@.take(i as int));
        }
        assert(self.nodes_connected@.take(i as int) =~= self.nodes_connected@);
        (v, self.join_mode)
    }

    /// Starts the local Raft node with `make`, from this node's identity and its
    /// members ([`raft_members`]). A node that does not join an existing cluster
    /// then initialises the cluster: the result gives the members to initialise
    /// it with and the data entry it submits next, which adds this node to the
    /// node set. `None` for a joining node, which does neither.
    pub fn init_raft<F: FnOnce(NodeId, Vec<NodeId>) -> R>(
        &mut self,
        nodes: Vec<NodeId>,
        join_mode: bool,
        make: F,
    ) -> (r: Option<ClusterInit>)
        requires
            forall|a: NodeId, b: Vec<NodeId>| make.requires((a, b)),
        ensures
            ({
                let members = raft_members(old(self)@.id, nodes@, join_mode);
                &&& final(self)@ == (NetworkView { raft: final(self)@.raft, ..old(self)@ })
                &&& final(self)@.raft is Some
                &&& exists|v: Vec<NodeId>|
                    v@ == members && make.ensures((old(self)@.id, v), final(self)@.raft.unwrap())
                &&& join_mode && nodes@.len() == 1 ==> members == seq![old(self)@.id]
                &&& !(join_mode && nodes@.len() == 1) ==> members == nodes@
                &&& join_mode ==> r is None
                &&& !join_mode ==> r is Some && r.unwrap().members@ == nodes@
                    && r.unwrap().add_self == MemoryStorageData::Add(old(self)@.id)
            }),
    {
        let members: Vec<NodeId> = if join_mode && nodes.len() == 1 {
            let mut v: Vec<NodeId> = Vec::new();
            v.push(self.id);
            assert(v@ =~= seq![self.id]);
            v
        } else {
            nodes
        };
        let given = crate::raft::storage::copy_ids(&members);
        let raft = make(self.id, given);
        self.raft = Some(raft);
        if join_mode {
            None
        } else {
            Some(ClusterInit { members, add_self: storage_add_node(self.id) })
        }
    }

    /// The handle to send a client request through once `leader` is known:
    /// the local Raft node when this node leads, else the leader's connection.
    pub fn route_client_request(&self, leader: NodeId) -> (r: ClientTarget<'_, N, R>)
        requires
            leader == self@.id ==> self@.raft is Some,
            leader != self@.id ==> self@.nodes.contains_key(leader),
        ensures
            match r {
                ClientTarget::Local(x) => leader == self@.id && self@.raft == Some(*x),
                ClientTarget::Remote(n) => leader != self@.id && *n == self@.nodes[leader],
            },
    {
        if leader == self.id {
            if let Some(x) = &self.raft {
                return ClientTarget::Local(x);
            }
        }
        ClientTarget::Remote(self.nodes.get(&leader).unwrap())
    }

    /// Where a message of kind `kind` from a peer goes: to the local Raft node
    /// when one runs and takes that kind, else an empty reply.
    pub fn dispatch_to_raft(&self, kind: MsgKind) -> (r: RaftDispatch<'_, R>)
        ensures
            match r {
                RaftDispatch::Forward(x) => kind != MsgKind::Other && self@.raft == Some(*x),
                RaftDispatch::EmptyReply => kind == MsgKind::Other || self@.raft is None,
            },
    {
        match &self.raft {
            Some(x) => if kind == MsgKind::Other {
                RaftDispatch::EmptyReply
            } else {
                RaftDispatch::Forward(x)
            },
            None => RaftDispatch::EmptyReply,
        }
    }

    /// Where a membership change is proposed once `leader` is known.
    pub fn route_config_change(&self, leader: NodeId) -> (r: ConfigChangeRoute)
        ensures
            r == (if leader == self@.id && self@.raft is Some {
                ConfigChangeRoute::ProposeLocally
            } else {
                ConfigChangeRoute::ForwardToLeader
            }),
    {
        if leader == self.id && self.raft.is_some() {
            ConfigChangeRoute::ProposeLocally
        } else {
            ConfigChangeRoute::ForwardToLeader
        }
    }

    /// The Raft node is initialised: the node counts as part of the cluster.
    /// Returns the identity to announce to the discovery server, which a node
    /// joining an existing cluster does.
    pub fn raft_initialised(&mut self) -> (r: Option<NodeId>)
        ensures
            final(self)@ == (NetworkView { state: NetworkState::Cluster, ..old(self)@ }),
            r == (if old(self)@.join_mode {
                Some(old(self)@.id)
            } else {
                None
            }),
    {
        self.state = NetworkState::Cluster;
        if self.join_mode {
            Some(self.id)
        } else {
            None
        }
    }

    /// The local Raft node, once started.
    pub fn raft(&self) -> (r: Option<&R>)
        ensures
            match r {
                Some(x) => self@.raft == Some(*x),
                None => self@.raft is None,
            },
    {
        match &self.raft {
            Some(x) => Some(x),
            None => None,
        }
    }

    /// The address this node listens on.
    pub fn get_listen_address(&self) -> (r: String)
        requires
            self@.address is Some,
        ensures
            Some(r@) == self@.address,
    {
        match &self.address {
            Some(a) => a.clone(),
            None => String::new(),
        }
    }

    /// How far this node has come in joining a cluster.
    pub fn get_cluster_state(&self) -> (r: NetworkState)
        ensures
            r == self@.state,
    {
        self.state
    }

    pub fn set_cluster_state(&mut self, state: NetworkState)
        ensures
            final(self)@ == (NetworkView { state, ..old(self)@ }),
    {
        self.state = state;
    }

    /// The connection through which a Raft message from `source` to `target`
    /// goes: the one to `target`, when there is one and neither end is cut off.
    pub fn route_raft_message(&self, target: NodeId, source: NodeId) -> (r: Option<&N>)
        ensures
            match r {
                Some(n) => {
                    &&& self@.nodes.contains_key(target)
                    &&& *n == self@.nodes[target]
                    &&& !self@.isolated_nodes.contains(target)
                    &&& !self@.isolated_nodes.contains(source)
                },
                None => !self@.nodes.contains_key(target) || self@.isolated_nodes.contains(target)
                    || self@.isolated_nodes.contains(source),
            },
    {
        match self.nodes.get(&target) {
            Some(node) => {
                if contains_id(&self.isolated_nodes, target) || contains_id(&self.isolated_nodes, source) {
                    None
                } else {
                    Some(node)
                }
            },
            None => None,
        }
    }
}

/// Whether `id` occurs in `v`.
pub fn contains_id(v: &Vec<NodeId>, id: NodeId) -> (r: bool)
    ensures
        r == v@.contains(id),
{
    let mut i: usize = 0;
    while i < v.len()
        invariant
            i <= v@.len(),
            forall|j: int| 0 <= j < i ==> v@[j] != id,
        decreases v@.len() - i,
    {
        if v[i] == id {
            assert(v@[i as int] == id);
            return true;
        }
        i = i + 1;
    }
    false
}

proof fn lemma_nodes_after_concat(nodes: Set<NodeId>, a: Seq<MemoryStorageData>, b: Seq<MemoryStorageData>)
    ensures
        nodes_after_all(nodes, a + b) == nodes_after_all(nodes_after_all(nodes, a), b),
    decreases b.len(),
{
    if b.len() == 0 {
        assert(a + b =~= a);
    } else {
        lemma_nodes_after_concat(nodes, a, b.drop_last());
        assert((a + b).drop_last() =~= a + b.drop_last());
        assert((a + b).last() == b.last());
    }
}

proof fn lemma_nodes_after_adds(nodes: Set<NodeId>, add: Seq<NodeId>)
    ensures
        nodes_after_all(nodes, add.map_values(|id: NodeId| MemoryStorageData::Add(id)))
            == nodes.union(add.to_set()),
    decreases add.len(),
{
    let ds = add.map_values(|id: NodeId| MemoryStorageData::Add(id));
    if add.len() == 0 {
        assert(add.to_set() =~= Set::<NodeId>::empty());
        assert(nodes.union(add.to_set()) =~= nodes);
    } else {
        lemma_nodes_after_adds(nodes, add.drop_last());
        assert(ds.drop_last() =~= add.drop_last().map_values(|id: NodeId| MemoryStorageData::Add(id)));
        assert(add.drop_last().push(add.last()) =~= add);
        add.drop_last().lemma_push_to_set_commute(add.last());
        assert(nodes.union(add.drop_last().to_set()).insert(add.last()) =~= nodes.union(add.to_set()));
    }
}

proof fn lemma_nodes_after_removes(nodes: Set<NodeId>, remove: Seq<NodeId>)
    ensures
        nodes_after_all(nodes, remove.map_values(|id: NodeId| MemoryStorageData::Remove(id)))
            == nodes.difference(remove.to_set()),
    decreases remove.len(),
{
    let ds = remove.map_values(|id: NodeId| MemoryStorageData::Remove(id));
    if remove.len() == 0 {
        assert(remove.to_set() =~= Set::<NodeId>::empty());
        assert(nodes.difference(remove.to_set()) =~= nodes);
    } else {
        lemma_nodes_after_removes(nodes, remove.drop_last());
        assert(ds.drop_last() =~= remove.drop_last().map_values(|id: NodeId| MemoryStorageData::Remove(id)));
        assert(remove.drop_last().push(remove.last()) =~= remove);
        remove.drop_last().lemma_push_to_set_commute(remove.last());
        assert(nodes.difference(remove.drop_last().to_set()).remove(remove.last())
            =~= nodes.difference(remove.to_set()));
    }
}

/// Carrying out an accepted membership change on the state machine's node set
/// adds the nodes to add, then takes out the nodes to remove.
pub proof fn lemma_follow_ups_change_membership(nodes: Set<NodeId>, add: Seq<NodeId>, remove: Seq<NodeId>)
    ensures
        nodes_after_all(nodes, follow_up_entries(add, remove)) == nodes.union(
            add.to_set(),
        ).difference(remove.to_set()),
{
    let adds = add.map_values(|id: NodeId| MemoryStorageData::Add(id));
    let removes = remove.map_values(|id: NodeId| MemoryStorageData::Remove(id));
    lemma_nodes_after_concat(nodes, adds, removes);
    lemma_nodes_after_adds(nodes, add);
    lemma_nodes_after_removes(nodes.union(add.to_set()), remove);
}

/// A node cut off by a disconnection and then restored is no longer cut off,
/// and every other cut-off node stays cut off, in order.
pub proof fn lemma_disconnect_then_restore(isolated: Seq<NodeId>, id: NodeId)
    ensures
        without(isolated.push(id), id) == without(isolated, id),
        !without(isolated.push(id), id).contains(id),
        !isolated.contains(id) ==> without(isolated.push(id), id) == isolated,
{
    reveal(Seq::filter);
    assert(isolated.push(id).drop_last() =~= isolated);
    lemma_without_excludes(isolated.push(id), id);
    if !isolated.contains(id) {
        lemma_without_unchanged(isolated, id);
    }
}

/// Removing an id that does not occur changes nothing.
pub proof fn lemma_without_unchanged(s: Seq<NodeId>, x: NodeId)
    requires
        !s.contains(x),
    ensures
        without(s, x) == s,
    decreases s.len(),
{
    reveal(Seq::filter);
    if s.len() > 0 {
        assert(!s.drop_last().contains(x)) by {
            if s.drop_last().contains(x) {
                let i = choose|i: int| 0 <= i < s.drop_last().len() && s.drop_last()[i] == x;
                assert(s[i] == x);
            }
        }
        lemma_without_unchanged(s.drop_last(), x);
        assert(s.drop_last().push(s.last()) =~= s);
    }
}

/// After a disconnection, no Raft message goes to or comes from the node:
/// its connection is gone and it is cut off.
pub proof fn lemma_disconnected_node_unreachable<N, R>(v: NetworkView<N, R>, id: NodeId)
    ensures
        ({
            let post = NetworkView {
                nodes_connected: without(v.nodes_connected, id),
                all_connected_nodes: v.all_connected_nodes.remove(id),
                nodes: v.nodes.remove(id),
                isolated_nodes: v.isolated_nodes.push(id),
                ..v
            };
            &&& !post.nodes.contains_key(id)
            &&& post.isolated_nodes.contains(id)
            &&& !post.nodes_connected.contains(id)
            &&& !post.all_connected_nodes.contains_key(id)
        }),
{
    reveal(Seq::filter);
    let s = v.isolated_nodes.push(id);
    assert(s[s.len() - 1] == id);
    if without(v.nodes_connected, id).contains(id) {
        let w = without(v.nodes_connected, id);
        let i = choose|i: int| 0 <= i < w.len() && w[i] == id;
        v.nodes_connected.lemma_filter_pred(|y: NodeId| y != id, i);
    }
}

/// Each configured peer is known under its identity, with the address of the
/// last peer listed under that identity.
pub proof fn lemma_peers_known(m: Map<NodeId, String>, peers: Seq<String>, i: int)
    requires
        0 <= i < peers.len(),
    ensures
        with_peers(m, peers).contains_key(node_id_spec(peers[i]@)),
        ({
            let id = node_id_spec(peers[i]@);
            exists|j: int|
                i <= j < peers.len() && node_id_spec(peers[j]@) == id && with_peers(m, peers)[id]
                    == #[trigger] peers[j]
        }),
    decreases peers.len(),
{
    let id = node_id_spec(peers[i]@);
    if i == peers.len() - 1 {
        assert(with_peers(m, peers)[id] == peers[i]);
    } else {
        let d = peers.drop_last();
        lemma_peers_known(m, d, i);
        if node_id_spec(peers.last()@) == id {
            assert(with_peers(m, peers)[id] == peers[peers.len() - 1]);
        } else {
            let j = choose|j: int|
                i <= j < d.len() && node_id_spec(d[j]@) == id && with_peers(m, d)[id]
                    == #[trigger] d[j];
            assert(d[j] == peers[j]);
        }
    }
}

/// The leader a node reports is the one its last metrics name, whatever the
/// node's own Raft state (follower, candidate, leader or non-voter), and none
/// before any metrics arrived.
pub proof fn lemma_leader_is_the_reported_one(m: RaftMetrics)
    ensures
        reported_leader(Some(m)) == m.current_leader,
        reported_leader(None) is None,
        m.current_leader is None ==> reported_leader(Some(m)) is None,
{
}

/// The Raft node starts with this node alone only when it joins an existing
/// cluster knowing exactly one node; in every other case its members are the
/// connected nodes, as given.
pub proof fn lemma_raft_members(id: NodeId, nodes: Seq<NodeId>, join_mode: bool)
    ensures
        join_mode && nodes.len() == 1 ==> raft_members(id, nodes, join_mode) == seq![id],
        !join_mode ==> raft_members(id, nodes, join_mode) == nodes,
        nodes.len() != 1 ==> raft_members(id, nodes, join_mode) == nodes,
        raft_members(id, nodes, join_mode).len() >= 1 || nodes.len() == 0,
{
}

/// An id is left in `without(s, x)` exactly when it is in `s` and is not `x`.
pub proof fn lemma_without_contains(s: Seq<NodeId>, x: NodeId, y: NodeId)
    ensures
        without(s, x).contains(y) <==> (s.contains(y) && y != x),
    decreases s.len(),
{
    reveal(Seq::filter);
    if s.len() > 0 {
        let d = s.drop_last();
        let l = s.last();
        lemma_without_contains(d, x, y);
        let w = without(d, x);
        assert(without(s, x) == if l != x {
            w.push(l)
        } else {
            w
        });
        if s.contains(y) {
            let i = choose|i: int| 0 <= i < s.len() && s[i] == y;
            if i < s.len() - 1 {
                assert(d[i] == y);
            }
        }
        if d.contains(y) {
            let i = choose|i: int| 0 <= i < d.len() && d[i] == y;
            assert(s[i] == y);
        }
        if l != x {
            if w.push(l).contains(y) {
                let i = choose|i: int| 0 <= i < w.push(l).len() && w.push(l)[i] == y;
                if i < w.len() {
                    assert(w[i] == y);
                }
            }
            if w.contains(y) {
                let i = choose|i: int| 0 <= i < w.len() && w[i] == y;
                assert(w.push(l)[i] == y);
            }
            if y == l {
                assert(w.push(l)[w.len() as int] == y);
            }
        }
    }
}

/// After registering the addresses of `peers`, a node stays cut off exactly
/// when it was cut off and none of the addresses, other than this node's own,
/// is its.
pub proof fn lemma_restored_by(isolated: Seq<NodeId>, peers: Seq<String>, own: Seq<char>, y: NodeId)
    ensures
        restored_by(isolated, peers, own).contains(y) <==> (isolated.contains(y) && !peer_ids(
            peers,
            own,
        ).contains(y)),
    decreases peers.len(),
{
    if peers.len() > 0 {
        let d = peers.drop_last();
        let p = peers.last();
        lemma_restored_by(isolated, d, own, y);
        assert(peer_ids(peers, own).contains(y) <==> (peer_ids(d, own).contains(y) || (p@ != own
            && node_id_spec(p@) == y))) by {
            if peer_ids(peers, own).contains(y) {
                let j = choose|j: int|
                    0 <= j < peers.len() && (#[trigger] peers[j])@ != own && node_id_spec(peers[j]@)
                        == y;
                if j < peers.len() - 1 {
                    assert(d[j] == peers[j]);
                }
            }
            if peer_ids(d, own).contains(y) {
                let j = choose|j: int|
                    0 <= j < d.len() && (#[trigger] d[j])@ != own && node_id_spec(d[j]@) == y;
                assert(peers[j] == d[j]);
            }
            if p@ != own && node_id_spec(p@) == y {
                assert(peers[peers.len() - 1] == p);
            }
        }
        if p@ != own {
            lemma_without_contains(restored_by(isolated, d, own), node_id_spec(p@), y);
        }
    } else {
        assert(!peer_ids(peers, own).contains(y));
    }
}

/// The configured peers are known exactly under their identities: an identity
/// is known when it was known before or an address of `peers` has it, and one
/// that no address has keeps what it had.
pub proof fn lemma_peers_domain(m: Map<NodeId, String>, peers: Seq<String>, k: NodeId)
    ensures
        with_peers(m, peers).contains_key(k) <==> (m.contains_key(k) || exists|i: int|
            0 <= i < peers.len() && node_id_spec((#[trigger] peers[i])@) == k),
        (forall|i: int| 0 <= i < peers.len() ==> node_id_spec((#[trigger] peers[i])@) != k)
            ==> with_peers(m, peers).contains_key(k) == m.contains_key(k) && (m.contains_key(k)
            ==> with_peers(m, peers)[k] == m[k]),
    decreases peers.len(),
{
    if peers.len() > 0 {
        let d = peers.drop_last();
        lemma_peers_domain(m, d, k);
        assert(forall|i: int| 0 <= i < d.len() ==> d[i] == peers[i]);
        if exists|i: int| 0 <= i < peers.len() && node_id_spec((#[trigger] peers[i])@) == k {
            let i = choose|i: int| 0 <= i < peers.len() && node_id_spec((#[trigger] peers[i])@) == k;
            if i < peers.len() - 1 {
                assert(node_id_spec(d[i]@) == k);
            }
        }
        if exists|i: int| 0 <= i < d.len() && node_id_spec((#[trigger] d[i])@) == k {
            let i = choose|i: int| 0 <= i < d.len() && node_id_spec((#[trigger] d[i])@) == k;
            assert(node_id_spec(peers[i]@) == k);
        }
        if forall|i: int| 0 <= i < peers.len() ==> node_id_spec((#[trigger] peers[i])@) != k {
            assert(node_id_spec(peers[peers.len() - 1]@) != k);
        }
    }
}

} // verus!
