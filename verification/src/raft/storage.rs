//! The storage engine behind the Raft node: what it records under which key,
//! what it keeps in memory, and the state machine it applies entries to.
//!
//! The database itself is driven by the caller: each operation here says what
//! is to be written, or takes what was read, and keeps the engine's own state.
use std::collections::HashSet;
use vstd::prelude::*;
use vstd::string::*;
use vstd::utf8::*;
use vstd::std_specs::hash::{axiom_spec_hash_keys_iter, spec_hash_keys_iter};
use vstd::std_specs::iter::IteratorSpec;

use crate::codec::{encode_string, msgpack_str};
use crate::rocksstore::keys::{
    applied_key, applied_key_spec, data_key, data_key_spec, hard_state_key, hard_state_key_spec,
    hard_state_prefix, index_of_key, log_key, log_key_spec, push_bytes,
};
use crate::raft::log::{
    after_writes, has_prefix, is_listing_of, highest_index, in_range, insert_by_index, is_log_listing, is_prefixed_listing, logs_in_range,
    record_index, records_in_range, sort_by_index,
};
use crate::NodeId;

verus! {

broadcast use vstd::std_specs::hash::group_hash_axioms;

/// The application data carried by the Raft log.
#[derive(Clone, Debug, PartialEq, Eq)]
pub enum MemoryStorageData {
    /// A node joins the set of known nodes.
    Add(NodeId),
    /// A node leaves the set of known nodes.
    Remove(NodeId),
    /// A user key and its value.
    My(String, String),
}

/// The answer given for an entry applied to the state machine.
#[derive(Clone, Copy, Debug, PartialEq, Eq, Structural)]
pub struct MemoryStorageResponse;

/// The storage engine failed.
#[derive(Clone, Copy, Debug, PartialEq, Eq, Structural)]
pub struct MemoryStorageError;

/// The voters and learners of the cluster.
#[derive(Debug)]
pub struct MembershipConfig {
    pub is_in_joint_consensus: bool,
    pub members: Vec<NodeId>,
    pub non_voters: Vec<NodeId>,
    pub removing: Vec<NodeId>,
}

pub struct MembershipView {
    pub is_in_joint_consensus: bool,
    pub members: Seq<NodeId>,
    pub non_voters: Seq<NodeId>,
    pub removing: Seq<NodeId>,
}

impl View for MembershipConfig {
    type V = MembershipView;

    open spec fn view(&self) -> MembershipView {
        MembershipView {
            is_in_joint_consensus: self.is_in_joint_consensus,
            members: self.members@,
            non_voters: self.non_voters@,
            removing: self.removing@,
        }
    }
}

pub(crate) fn copy_ids(v: &Vec<NodeId>) -> (r: Vec<NodeId>)
    ensures
        r@ == v@,
{
    let mut r: Vec<NodeId> = Vec::new();
    let mut i: usize = 0;
    while i < v.len()
        invariant
            i <= v@.len(),
            r@ == v@.subrange(0, i as int),
        decreases v@.len() - i,
    {
        r.push(v[i]);
        i = i + 1;
        assert(r@ =~= v@.subrange(0, i as int));
    }
    assert(v@.subrange(0, i as int) =~= v@);
    r
}

impl Clone for MembershipConfig {
    fn clone(&self) -> (r: Self)
        ensures
            r@ == self@,
    {
        MembershipConfig {
            is_in_joint_consensus: self.is_in_joint_consensus,
            members: copy_ids(&self.members),
            non_voters: copy_ids(&self.non_voters),
            removing: copy_ids(&self.removing),
        }
    }
}

/// The Raft state that must survive a restart.
#[derive(Debug)]
pub struct HardState {
    pub current_term: u64,
    pub voted_for: Option<NodeId>,
    pub membership: MembershipConfig,
}

pub struct HardStateView {
    pub current_term: u64,
    pub voted_for: Option<NodeId>,
    pub membership: MembershipView,
}

impl View for HardState {
    type V = HardStateView;

    open spec fn view(&self) -> HardStateView {
        HardStateView {
            current_term: self.current_term,
            voted_for: self.voted_for,
            membership: self.membership@,
        }
    }
}

impl Clone for HardState {
    fn clone(&self) -> (r: Self)
        ensures
            r@ == self@,
    {
        HardState {
            current_term: self.current_term,
            voted_for: self.voted_for,
            membership: self.membership.clone(),
        }
    }
}

/// What the engine reports when the Raft node starts.
#[derive(Debug)]
pub struct InitialStateData {
    pub last_log_index: u64,
    pub last_log_term: u64,
    pub last_applied_log: u64,
    pub hard_state: HardState,
}

/// The most recent snapshot: the last entry it covers, the membership at that
/// point and the file that holds it.
#[derive(Debug)]
pub struct CurrentSnapshotData {
    pub term: u64,
    pub index: u64,
    pub membership: MembershipConfig,
    pub pointer: String,
}

pub struct SnapshotView {
    pub term: u64,
    pub index: u64,
    pub membership: MembershipView,
    pub pointer: Seq<char>,
}

impl View for CurrentSnapshotData {
    type V = SnapshotView;

    open spec fn view(&self) -> SnapshotView {
        SnapshotView {
            term: self.term,
            index: self.index,
            membership: self.membership@,
            pointer: self.pointer@,
        }
    }
}

impl Clone for CurrentSnapshotData {
    fn clone(&self) -> (r: Self)
        ensures
            r@ == self@,
    {
        CurrentSnapshotData {
            term: self.term,
            index: self.index,
            membership: self.membership.clone(),
            pointer: self.pointer.clone(),
        }
    }
}

/// A key and its value, as read from or to be written to the database.
#[derive(Debug, PartialEq, Eq)]
pub struct KeyValue {
    pub key: Vec<u8>,
    pub value: Vec<u8>,
}

impl View for KeyValue {
    type V = (Seq<u8>, Seq<u8>);

    open spec fn view(&self) -> (Seq<u8>, Seq<u8>) {
        (self.key@, self.value@)
    }
}

/// The views of a sequence of records.
pub open spec fn kv_view(s: Seq<KeyValue>) -> Seq<(Seq<u8>, Seq<u8>)> {
    s.map_values(|kv: KeyValue| kv@)
}

/// The views of a sequence of byte vectors.
pub open spec fn bytes_view(s: Seq<Vec<u8>>) -> Seq<Seq<u8>> {
    s.map_values(|b: Vec<u8>| b@)
}

pub open spec fn snapshot_view(s: Option<CurrentSnapshotData>) -> Option<SnapshotView> {
    match s {
        Some(d) => Some(d@),
        None => None,
    }
}

/// The storage engine's own state.
pub struct MemoryStorage {
    hs: HardState,
    snapshot_data: Option<CurrentSnapshotData>,
    snapshot_dir: String,
    add_remove_nodes: HashSet<NodeId>,
}

pub struct StorageView {
    pub hs: HardStateView,
    pub snapshot: Option<SnapshotView>,
    pub snapshot_dir: Seq<char>,
    /// The nodes that the applied `Add` and `Remove` entries leave in the cluster.
    pub nodes: Set<NodeId>,
}

impl View for MemoryStorage {
    type V = StorageView;

    closed spec fn view(&self) -> StorageView {
        StorageView {
            hs: self.hs@,
            snapshot: snapshot_view(self.snapshot_data),
            snapshot_dir: self.snapshot_dir@,
            nodes: self.add_remove_nodes@,
        }
    }
}

/// The cluster's node set after applying the data entry `data`.
pub open spec fn nodes_after(nodes: Set<NodeId>, data: MemoryStorageData) -> Set<NodeId> {
    match data {
        MemoryStorageData::Add(n) => nodes.insert(n),
        MemoryStorageData::Remove(n) => nodes.remove(n),
        MemoryStorageData::My(_, _) => nodes,
    }
}

/// The cluster's node set after applying the data entries `ds` in order.
pub open spec fn nodes_after_all(nodes: Set<NodeId>, ds: Seq<MemoryStorageData>) -> Set<NodeId>
    decreases ds.len(),
{
    if ds.len() == 0 {
        nodes
    } else {
        nodes_after(nodes_after_all(nodes, ds.drop_last()), ds.last())
    }
}

/// The cluster's node set after applying an entry that carries `d`, or no data.
pub open spec fn nodes_after_entry(nodes: Set<NodeId>, d: Option<MemoryStorageData>) -> Set<NodeId> {
    match d {
        Some(x) => nodes_after(nodes, x),
        None => nodes,
    }
}

/// The hard state of a fresh engine: term 0, no vote, the given members.
pub open spec fn initial_hard_state(members: Seq<NodeId>) -> HardStateView {
    HardStateView {
        current_term: 0,
        voted_for: None,
        membership: MembershipView {
            is_in_joint_consensus: false,
            members,
            non_voters: Seq::empty(),
            removing: Seq::empty(),
        },
    }
}

impl MemoryStorage {
    /// A fresh engine for a cluster of `members` that keeps its snapshots in `snapshot_dir`.
    pub fn new(members: Vec<NodeId>, snapshot_dir: String) -> (r: Self)
        ensures
            r@.hs == initial_hard_state(members@),
            r@.hs.current_term == 0,
            r@.hs.voted_for is None,
            r@.hs.membership.members == members@,
            !r@.hs.membership.is_in_joint_consensus,
            r@.hs.membership.non_voters.len() == 0,
            r@.hs.membership.removing.len() == 0,
            r@.snapshot is None,
            r@.snapshot_dir == snapshot_dir@,
            r@.nodes == Set::<NodeId>::empty(),
    {
        let membership = MembershipConfig {
            is_in_joint_consensus: false,
            members,
            non_voters: Vec::new(),
            removing: Vec::new(),
        };
        MemoryStorage {
            hs: HardState { current_term: 0, voted_for: None, membership },
            snapshot_data: None,
            snapshot_dir,
            add_remove_nodes: HashSet::new(),
        }
    }
}

/// The records at the given positions of the listing.
pub open spec fn at_positions(log: Seq<(Seq<u8>, Seq<u8>)>, ps: Seq<usize>) -> Seq<
    (Seq<u8>, Seq<u8>),
> {
    ps.map_values(|j: usize| log[j as int])
}

/// A fresh copy of some bytes.
pub fn copy_bytes(src: &[u8]) -> (r: Vec<u8>)
    ensures
        r@ == src@,
{
    let mut r: Vec<u8> = Vec::new();
    push_bytes(&mut r, src);
    assert(r@ =~= src@);
    r
}

proof fn lemma_insert_step(s: Seq<(Seq<u8>, Seq<u8>)>, p: (Seq<u8>, Seq<u8>), j: int)
    requires
        0 < j <= s.len(),
        record_index(s[j - 1]) > record_index(p),
    ensures
        insert_by_index(s.take(j), p) == insert_by_index(s.take(j - 1), p).push(s[j - 1]),
{
    assert(s.take(j).drop_last() =~= s.take(j - 1));
}

impl MemoryStorage {
    /// The values of the log records from `begin` up to, not including, `end`,
    /// read from `log`, the listing of the records under the log prefix: those
    /// whose index lies in `[begin, end)`, ordered by index.
    pub fn get_logs_entry(log: &Vec<KeyValue>, begin: u64, end: u64) -> (r: Vec<Vec<u8>>)
        requires
            is_log_listing(kv_view(log@)),
        ensures
            bytes_view(r@) == logs_in_range(kv_view(log@), begin, end),
    {
        let ghost lv = kv_view(log@);
        let n = log.len();
        // The index of each record, and the positions of those in `[begin, end)`.
        let mut idx: Vec<u64> = Vec::new();
        let mut kept: Vec<usize> = Vec::new();
        let mut i: usize = 0;
        while i < n
            invariant
                n == log@.len(),
                lv == kv_view(log@),
                is_log_listing(lv),
                i <= n,
                idx@.len() == i,
                forall|j: int| 0 <= j < i ==> idx@[j] == record_index(#[trigger] lv[j]),
                forall|j: int| 0 <= j < kept@.len() ==> kept@[j] < i,
                at_positions(lv, kept@) == records_in_range(lv.take(i as int), begin, end),
            decreases n - i,
        {
            assert(lv[i as int] == log@[i as int]@);
            let k = index_of_key(log[i].key.as_slice());
            idx.push(k);
            let ghost old_kept = kept@;
            if begin <= k && k < end {
                kept.push(i);
            }
            proof {
                let t = lv.take(i + 1);
                reveal(Seq::filter);
                assert(t.drop_last() =~= lv.take(i as int));
                assert(t.last() == lv[i as int]);
                assert(k == record_index(lv[i as int]));
                assert(records_in_range(t, begin, end) == (if in_range(t.last(), begin, end) {
                    records_in_range(t.drop_last(), begin, end).push(t.last())
                } else {
                    records_in_range(t.drop_last(), begin, end)
                }));
                if begin <= k && k < end {
                    assert(at_positions(lv, kept@) =~= at_positions(lv, old_kept).push(lv[i as int]));
                } else {
                    assert(at_positions(lv, kept@) =~= at_positions(lv, old_kept));
                }
            }
            i = i + 1;
        }
        assert(lv.take(n as int) =~= lv);
        // Stable insertion sort of the kept positions by index.
        let mut sorted: Vec<usize> = Vec::new();
        let mut t: usize = 0;
        assert(at_positions(lv, sorted@) =~= sort_by_index(at_positions(lv, kept@.take(0))));
        while t < kept.len()
            invariant
                n == log@.len(),
                lv == kv_view(log@),
                idx@.len() == n,
                forall|j: int| 0 <= j < n ==> idx@[j] == record_index(#[trigger] lv[j]),
                forall|j: int| 0 <= j < kept@.len() ==> kept@[j] < n,
                forall|j: int| 0 <= j < sorted@.len() ==> sorted@[j] < n,
                t <= kept@.len(),
                at_positions(lv, sorted@) == sort_by_index(at_positions(lv, kept@.take(t as int))),
            decreases kept@.len() - t,
        {
            let p = kept[t];
            let ghost s0 = at_positions(lv, sorted@);
            let ghost x = lv[p as int];
            let mut j: usize = sorted.len();
            assert(s0.take(j as int) =~= s0);
            assert(s0.skip(j as int) =~= Seq::<(Seq<u8>, Seq<u8>)>::empty());
            assert(insert_by_index(s0, x) =~= insert_by_index(s0.take(j as int), x) + s0.skip(
                j as int,
            ));
            while j > 0 && idx[sorted[j - 1]] > idx[p]
                invariant
                    n == log@.len(),
                    lv == kv_view(log@),
                    idx@.len() == n,
                    forall|q: int| 0 <= q < n ==> idx@[q] == record_index(#[trigger] lv[q]),
                    forall|q: int| 0 <= q < sorted@.len() ==> sorted@[q] < n,
                    p < n,
                    x == lv[p as int],
                    s0 == at_positions(lv, sorted@),
                    j <= sorted@.len(),
                    insert_by_index(s0, x) == insert_by_index(s0.take(j as int), x) + s0.skip(
                        j as int,
                    ),
                decreases j,
            {
                proof {
                    assert(s0[j - 1] == lv[sorted@[j - 1] as int]);
                    lemma_insert_step(s0, x, j as int);
                    assert(s0.skip(j - 1) =~= seq![s0[j - 1]] + s0.skip(j as int));
                    assert(insert_by_index(s0.take(j - 1), x).push(s0[j - 1]) + s0.skip(j as int)
                        =~= insert_by_index(s0.take(j - 1), x) + s0.skip(j - 1));
                }
                j = j - 1;
            }
            proof {
                if j == 0 {
                    assert(s0.take(0) =~= Seq::<(Seq<u8>, Seq<u8>)>::empty());
                } else {
                    assert(s0[j - 1] == lv[sorted@[j - 1] as int]);
                    assert(s0.take(j as int).drop_last() =~= s0.take(j - 1));
                    assert(s0.take(j as int).last() == s0[j - 1]);
                }
                assert(insert_by_index(s0.take(j as int), x) == s0.take(j as int).push(x));
            }
            sorted.insert(j, p);
            proof {
                assert(at_positions(lv, sorted@) =~= s0.take(j as int).push(x) + s0.skip(j as int));
                let kt = kept@.take(t + 1);
                assert(kt.drop_last() =~= kept@.take(t as int));
                assert(at_positions(lv, kt).drop_last() =~= at_positions(lv, kept@.take(t as int)));
                assert(at_positions(lv, kt).last() == x);
            }
            t = t + 1;
        }
        assert(kept@.take(kept@.len() as int) =~= kept@);
        // The values, in that order.
        let ghost srt = at_positions(lv, sorted@);
        let mut out: Vec<Vec<u8>> = Vec::new();
        let mut m: usize = 0;
        while m < sorted.len()
            invariant
                n == log@.len(),
                lv == kv_view(log@),
                forall|j: int| 0 <= j < sorted@.len() ==> sorted@[j] < n,
                srt == at_positions(lv, sorted@),
                m <= sorted@.len(),
                bytes_view(out@) == srt.take(m as int).map_values(|p: (Seq<u8>, Seq<u8>)| p.1),
            decreases sorted@.len() - m,
        {
            let pos = sorted[m];
            assert(srt[m as int] == log@[pos as int]@);
            let v = copy_bytes(log[pos].value.as_slice());
            let ghost old_out = out@;
            out.push(v);
            proof {
                assert(srt.take(m + 1) =~= srt.take(m as int).push(srt[m as int]));
                assert(bytes_view(out@) =~= bytes_view(old_out).push(v@));
            }
            m = m + 1;
        }
        assert(srt.take(m as int) =~= srt);
        out
    }
}

/// A log entry already encoded for the database, with its index.
#[derive(Debug)]
pub struct EncodedEntry {
    pub index: u64,
    pub bytes: Vec<u8>,
}

/// An entry on its way to the state machine: its encoding, with its index,
/// and its application data (`None` for an entry that carries none).
#[derive(Debug)]
pub struct StateMachineEntry {
    pub entry: EncodedEntry,
    pub data: Option<MemoryStorageData>,
}

/// The write that stores a user's `value` under `key`: the MessagePack
/// encoding of the value under the data key of the key's UTF-8 bytes.
pub open spec fn user_data_write(key: Seq<char>, value: Seq<char>) -> (Seq<u8>, Seq<u8>) {
    (data_key_spec(encode_utf8(key)), msgpack_str(encode_utf8(value)))
}

/// `w` is the data write that applying an entry carrying `d` asks for: the
/// user data write for `My`, none otherwise.
pub open spec fn asks_data_write(w: Option<KeyValue>, d: Option<MemoryStorageData>) -> bool {
    match d {
        Some(MemoryStorageData::My(k, v)) => match w {
            Some(kv) => kv@ == user_data_write(k@, v@),
            None => false,
        },
        _ => w is None,
    }
}

/// A value put under a key is found under that key: after the writes `ws`,
/// where `ws[i]` is the data write that applying `My(key, value)` asks for and
/// no later write goes to the same key (no other user entry for `key`; record
/// writes and other keys never do, by `lemma_key_kinds_disjoint` and
/// `lemma_user_keys_distinct`), the database holds the value's MessagePack
/// encoding under the key that `lookup_key` gives for `key`'s UTF-8 bytes.
pub proof fn lemma_put_then_find(
    db: Map<Seq<u8>, Seq<u8>>,
    ws: Seq<(Seq<u8>, Seq<u8>)>,
    i: int,
    key: Seq<char>,
    value: Seq<char>,
)
    requires
        0 <= i < ws.len(),
        ws[i] == user_data_write(key, value),
        forall|j: int| i < j < ws.len() ==> (#[trigger] ws[j]).0 != data_key_spec(encode_utf8(key)),
    ensures
        after_writes(db, ws).contains_key(data_key_spec(encode_utf8(key))),
        after_writes(db, ws)[data_key_spec(encode_utf8(key))] == msgpack_str(encode_utf8(value)),
    decreases ws.len(),
{
    if i < ws.len() - 1 {
        assert(ws.last() == ws[ws.len() - 1]);
        lemma_put_then_find(db, ws.drop_last(), i, key, value);
    }
}

/// The applied record of `e`, as it is written.
pub open spec fn record_write(e: StateMachineEntry) -> (Seq<u8>, Seq<u8>) {
    (applied_key_spec(e.entry.index), e.entry.bytes@)
}

/// Entries on their way through the state machine, applied one at a time:
/// the caller writes the record that [`StateMachineRun::next_record`] gives,
/// reports whether it was stored to [`StateMachineRun::record_written`], and
/// writes the data write that comes back, until no record is left. The first
/// record that is not stored ends the run with a failure: nothing after it is
/// handed out.
pub struct StateMachineRun {
    entries: Vec<StateMachineEntry>,
    next: usize,
    failed: bool,
}

pub struct RunView {
    /// The entries to apply, in order.
    pub entries: Seq<StateMachineEntry>,
    /// How many of them are applied.
    pub next: int,
    /// Whether the record of the entry at `next` failed to be stored.
    pub failed: bool,
}

impl View for StateMachineRun {
    type V = RunView;

    closed spec fn view(&self) -> RunView {
        RunView { entries: self.entries@, next: self.next as int, failed: self.failed }
    }
}

impl StateMachineRun {
    #[verifier::type_invariant]
    spec fn inv(self) -> bool {
        self.next <= self.entries@.len()
    }

    /// The record of the next entry to write, while the run goes on; `None`
    /// once every entry is applied or a record failed.
    pub fn next_record(&self) -> (r: Option<KeyValue>)
        ensures
            r is Some <==> (self@.next < self@.entries.len() && !self@.failed),
            r matches Some(kv) ==> kv@ == record_write(self@.entries[self@.next]),
            r matches Some(kv) ==> kv.key@ == applied_key_spec(self@.entries[self@.next].entry.index)
                && kv.value@ == self@.entries[self@.next].entry.bytes@,
    {
        proof {
            use_type_invariant(self);
        }
        if self.failed || self.next >= self.entries.len() {
            return None;
        }
        let e = &self.entries[self.next];
        Some(KeyValue { key: applied_key(e.entry.index), value: copy_bytes(e.entry.bytes.as_slice()) })
    }

    /// The record of the next entry was written, `stored` saying whether it
    /// was stored. If not, the run fails and nothing changes. If so, the entry
    /// is applied to `storage` as [`MemoryStorage::apply_entry_to_state_machine`]
    /// applies it, the result being the data write it asks for, and the run
    /// moves on to the following entry.
    pub fn record_written(&mut self, storage: &mut MemoryStorage, stored: bool) -> (r: Result<
        Option<KeyValue>,
        MemoryStorageError,
    >)
        requires
            old(self)@.next < old(self)@.entries.len(),
            !old(self)@.failed,
        ensures
            final(self)@.entries == old(self)@.entries,
            !stored ==> r is Err && final(self)@.failed && final(self)@.next == old(self)@.next
                && final(storage)@ == old(storage)@,
            stored ==> {
                let d = old(self)@.entries[old(self)@.next].data;
                &&& r is Ok
                &&& asks_data_write(r.unwrap(), d)
                &&& !final(self)@.failed
                &&& final(self)@.next == old(self)@.next + 1
                &&& final(storage)@ == (StorageView {
                    nodes: nodes_after_entry(old(storage)@.nodes, d),
                    ..old(storage)@
                })
            },
    {
        proof {
            use_type_invariant(&*self);
        }
        let i = self.next;
        let n = self.entries.len();
        assert(i < n);
        let r = storage.apply_entry_to_state_machine(stored, &self.entries[i].data);
        if stored {
            self.next = i + 1;
        } else {
            self.failed = true;
        }
        r
    }

    /// How the run ended: a failure when a record was not stored.
    pub fn outcome(&self) -> (r: Result<(), MemoryStorageError>)
        ensures
            r is Ok <==> !self@.failed,
    {
        if self.failed {
            Err(MemoryStorageError)
        } else {
            Ok(())
        }
    }
}

/// The write that keeps the hard state.
pub open spec fn hard_state_write(encoded: Seq<u8>) -> (Seq<u8>, Seq<u8>) {
    (hard_state_key_spec(), encoded)
}

/// The position of the record of highest index in a listing, the first such
/// one where several share it; `None` for an empty listing.
pub fn highest_record(listing: &Vec<KeyValue>) -> (r: Option<usize>)
    requires
        is_prefixed_listing(kv_view(listing@)),
    ensures
        r is None <==> listing@.len() == 0,
        r matches Some(p) ==> {
            let lv = kv_view(listing@);
            &&& p < lv.len()
            &&& record_index(lv[p as int]) == highest_index(lv)
            &&& forall|i: int| 0 <= i < lv.len() ==> record_index(#[trigger] lv[i]) <= record_index(
                lv[p as int],
            )
            &&& forall|i: int| 0 <= i < p ==> record_index(#[trigger] lv[i]) < record_index(
                lv[p as int],
            )
        },
{
    let ghost lv = kv_view(listing@);
    let n = listing.len();
    let mut best: Option<usize> = None;
    let mut best_k: u64 = 0;
    let mut i: usize = 0;
    while i < n
        invariant
            n == lv.len(),
            lv == kv_view(listing@),
            is_prefixed_listing(lv),
            i <= n,
            best is None <==> i == 0,
            best matches Some(p) ==> {
                &&& p < i
                &&& best_k == record_index(lv[p as int])
                &&& best_k == highest_index(lv.take(i as int))
                &&& forall|j: int| 0 <= j < i ==> record_index(#[trigger] lv[j]) <= best_k
                &&& forall|j: int| 0 <= j < p ==> record_index(#[trigger] lv[j]) < best_k
            },
        decreases n - i,
    {
        assert(lv[i as int] == listing@[i as int]@);
        let k = index_of_key(listing[i].key.as_slice());
        proof {
            let t = lv.take(i + 1);
            assert(t.drop_last() =~= lv.take(i as int));
            assert(t.last() == lv[i as int]);
            if i == 0 {
                assert(lv.take(0) =~= Seq::<(Seq<u8>, Seq<u8>)>::empty());
            }
        }
        let better = match best {
            None => true,
            Some(_) => k > best_k,
        };
        let ghost prev_k = best_k;
        if better {
            best = Some(i);
            best_k = k;
        }
        proof {
            let t = lv.take(i + 1);
            assert(record_index(lv[i as int]) == k);
            assert(highest_index(t) == if k > highest_index(lv.take(i as int)) {
                k
            } else {
                highest_index(lv.take(i as int))
            });
            if i == 0 {
                assert(highest_index(lv.take(i as int)) == 0);
            } else {
                assert(highest_index(lv.take(i as int)) == prev_k);
            }
            assert(best_k == highest_index(t));
        }
        i = i + 1;
    }
    assert(lv.take(n as int) =~= lv);
    best
}

/// A saved hard state is what start-up reads back: where the database holds
/// no key under the hard-state prefix but the hard-state key, after the write
/// that [`MemoryStorage::save_hard_state`] returns, the database lists under
/// that prefix exactly that write, so the last record listed there, whose
/// value is decoded into the `saved` of [`MemoryStorage::get_initial_state`],
/// holds the encoding that was saved.
pub proof fn lemma_hard_state_read_back(
    db: Map<Seq<u8>, Seq<u8>>,
    encoded: Seq<u8>,
    listing: Seq<(Seq<u8>, Seq<u8>)>,
)
    requires
        forall|k: Seq<u8>|
            #[trigger] db.contains_key(k) && has_prefix(k, hard_state_prefix()) ==> k
                == hard_state_key_spec(),
        is_listing_of(listing, after_writes(db, seq![hard_state_write(encoded)]), hard_state_prefix()),
    ensures
        listing == seq![hard_state_write(encoded)],
{
    let w = hard_state_write(encoded);
    let ws = seq![w];
    assert(ws.drop_last() =~= Seq::<(Seq<u8>, Seq<u8>)>::empty());
    let db1 = after_writes(db, ws);
    assert(db1 == after_writes(db, ws.drop_last()).insert(w.0, w.1));
    assert(db1 == db.insert(w.0, w.1));
    assert(w.0.subrange(0, 3) =~= hard_state_prefix());
    assert(listing.contains(w));
    assert forall|i: int| 0 <= i < listing.len() implies #[trigger] listing[i] == w by {
        assert(listing.contains(listing[i]));
    }
    if listing.len() > 1 {
        assert(listing[0] == listing[1]);
    }
    assert(listing =~= ws);
}

impl MemoryStorage {
    /// The state reported when the node starts. `log` and `applied` are what
    /// the database lists under the log prefix and the applied prefix;
    /// `last_log_term` is the term of the entry that [`highest_record`] picks
    /// from `log`, and `saved` the hard state stored under its key. The last
    /// log index and the last applied index are the highest that the listings
    /// hold (0 for none, and then the term is 0 too). The engine adopts the
    /// saved hard state, or keeps its own where none was stored, and reports it.
    pub fn get_initial_state(
        &mut self,
        log: &Vec<KeyValue>,
        applied: &Vec<KeyValue>,
        last_log_term: u64,
        saved: Option<HardState>,
    ) -> (r: InitialStateData)
        requires
            is_prefixed_listing(kv_view(log@)),
            is_prefixed_listing(kv_view(applied@)),
        ensures
            r.last_log_index == highest_index(kv_view(log@)),
            r.last_log_term == if log@.len() == 0 {
                0
            } else {
                last_log_term
            },
            r.last_applied_log == highest_index(kv_view(applied@)),
            final(self)@.hs == (match saved {
                Some(h) => h@,
                None => old(self)@.hs,
            }),
            r.hard_state@ == final(self)@.hs,
            final(self)@.snapshot == old(self)@.snapshot,
            final(self)@.snapshot_dir == old(self)@.snapshot_dir,
            final(self)@.nodes == old(self)@.nodes,
    {
        let (last_log_index, term) = match highest_record(log) {
            Some(p) => {
                assert(kv_view(log@)[p as int] == log@[p as int]@);
                (index_of_key(log[p].key.as_slice()), last_log_term)
            },
            None => {
                assert(kv_view(log@) =~= Seq::<(Seq<u8>, Seq<u8>)>::empty());
                (0, 0)
            },
        };
        let last_applied_log = match highest_record(applied) {
            Some(p) => {
                assert(kv_view(applied@)[p as int] == applied@[p as int]@);
                index_of_key(applied[p].key.as_slice())
            },
            None => {
                assert(kv_view(applied@) =~= Seq::<(Seq<u8>, Seq<u8>)>::empty());
                0
            },
        };
        let hs = match saved {
            Some(h) => h,
            None => self.hs.clone(),
        };
        let init = InitialStateData {
            last_log_index,
            last_log_term: term,
            last_applied_log,
            hard_state: hs.clone(),
        };
        self.hs = hs;
        init
    }

    /// Adopts `hs` as the hard state; the write returned keeps its encoding
    /// under the hard-state key.
    pub fn save_hard_state(&mut self, hs: HardState, encoded: Vec<u8>) -> (w: KeyValue)
        ensures
            w@ == hard_state_write(encoded@),
            final(self)@.hs == hs@,
            final(self)@.snapshot == old(self)@.snapshot,
            final(self)@.snapshot_dir == old(self)@.snapshot_dir,
            final(self)@.nodes == old(self)@.nodes,
    {
        self.hs = hs;
        KeyValue { key: hard_state_key(), value: encoded }
    }

    /// The write that appends an encoded entry to the log, under the log key of its index.
    pub fn append_entry_to_log(entry: EncodedEntry) -> (w: KeyValue)
        ensures
            w@ == (log_key_spec(entry.index), entry.bytes@),
    {
        KeyValue { key: log_key(entry.index), value: entry.bytes }
    }

    /// The writes that replicate entries to the log, one per entry, in order.
    pub fn replicate_to_log(entries: &Vec<EncodedEntry>) -> (ws: Vec<KeyValue>)
        ensures
            ws@.len() == entries@.len(),
            forall|i: int|
                0 <= i < entries@.len() ==> (#[trigger] ws@[i])@ == (
                    log_key_spec(entries@[i].index),
                    entries@[i].bytes@,
                ),
    {
        let mut ws: Vec<KeyValue> = Vec::new();
        let mut i: usize = 0;
        while i < entries.len()
            invariant
                i <= entries@.len(),
                ws@.len() == i,
                forall|j: int|
                    0 <= j < i ==> (#[trigger] ws@[j])@ == (
                        log_key_spec(entries@[j].index),
                        entries@[j].bytes@,
                    ),
            decreases entries@.len() - i,
        {
            let e = &entries[i];
            ws.push(KeyValue { key: log_key(e.index), value: copy_bytes(e.bytes.as_slice()) });
            i = i + 1;
        }
        ws
    }

    /// The write that records an entry as applied to the state machine, under
    /// the applied key of its index. It comes first when an entry is applied.
    pub fn state_machine_record(entry: EncodedEntry) -> (w: KeyValue)
        ensures
            w@ == (applied_key_spec(entry.index), entry.bytes@),
    {
        KeyValue { key: applied_key(entry.index), value: entry.bytes }
    }

    /// Applies an entry to the state machine once its applied record has been
    /// written (`recorded`: that write succeeded). `data` is the entry's
    /// application data, `None` for an entry that carries none. A failed record
    /// fails the application and changes nothing. Otherwise the application
    /// succeeds: `Add` and `Remove` change the set of nodes, and `My(key,
    /// value)` asks for the write of the value's MessagePack encoding under the
    /// data key of `key`.
    pub fn apply_entry_to_state_machine(
        &mut self,
        recorded: bool,
        data: &Option<MemoryStorageData>,
    ) -> (r: Result<Option<KeyValue>, MemoryStorageError>)
        ensures
            final(self)@.hs == old(self)@.hs,
            final(self)@.snapshot == old(self)@.snapshot,
            final(self)@.snapshot_dir == old(self)@.snapshot_dir,
            !recorded ==> r is Err && final(self)@.nodes == old(self)@.nodes,
            recorded ==> r is Ok && final(self)@.nodes == nodes_after_entry(old(self)@.nodes, *data)
                && asks_data_write(r.unwrap(), *data),
    {
        if !recorded {
            return Err(MemoryStorageError);
        }
        match data {
            None => Ok(None),
            Some(MemoryStorageData::Add(n)) => {
                self.add_remove_nodes.insert(*n);
                Ok(None)
            },
            Some(MemoryStorageData::Remove(n)) => {
                self.add_remove_nodes.remove(n);
                Ok(None)
            },
            Some(MemoryStorageData::My(k, v)) => {
                let w = KeyValue { key: data_key(k.as_str()), value: encode_string(v.as_str()) };
                Ok(Some(w))
            },
        }
    }

    /// Starts applying `entries` to the state machine, in order, one at a
    /// time (see [`StateMachineRun`]).
    pub fn replicate_to_state_machine(entries: Vec<StateMachineEntry>) -> (run: StateMachineRun)
        ensures
            run@ == (RunView { entries: entries@, next: 0, failed: false }),
    {
        StateMachineRun { entries, next: 0, failed: false }
    }

    /// Starts rebuilding the state machine from the entries of a snapshot: the
    /// node set is emptied, then the entries are applied in order, one at a
    /// time (see [`StateMachineRun`]).
    pub fn rebuild_state_machine_from_snapshot(&mut self, entries: Vec<StateMachineEntry>) -> (run:
        StateMachineRun)
        ensures
            run@ == (RunView { entries: entries@, next: 0, failed: false }),
            final(self)@ == (StorageView { nodes: Set::empty(), ..old(self)@ }),
    {
        self.add_remove_nodes = HashSet::new();
        StateMachineRun { entries, next: 0, failed: false }
    }

    /// The node identities that the applied entries leave in the cluster, each once.
    pub fn get_node(&self) -> (r: Vec<NodeId>)
        ensures
            r@.to_set() == self@.nodes,
            r@.no_duplicates(),
    {
        let mut r: Vec<NodeId> = Vec::new();
        let ghost all = spec_hash_keys_iter(&self.add_remove_nodes).remaining();
        proof {
            axiom_spec_hash_keys_iter(&self.add_remove_nodes);
        }
        for x in it: self.add_remove_nodes.iter()
            invariant
                it.seq() == all,
                all.unref().to_set() == self.add_remove_nodes@,
                all.no_duplicates(),
                r@ == it.seq().take(it.index()).unref(),
        {
            r.push(*x);
            assert(r@ =~= it.seq().take(it.index() + 1).unref());
        }
        assert(all.take(all.len() as int) =~= all);
        assert(r@ == all.unref());
        r
    }

    /// The records to read for a snapshot through `through`: the log from its start up to `through`.
    pub fn create_snapshot_entries(log: &Vec<KeyValue>, through: u64) -> (r: Vec<Vec<u8>>)
        requires
            is_log_listing(kv_view(log@)),
            through < u64::MAX,
        ensures
            bytes_view(r@) == logs_in_range(kv_view(log@), 0, (through + 1) as u64),
    {
        Self::get_logs_entry(log, 0, through + 1)
    }

    fn set_snapshot(&mut self, index: u64, term: u64, pointer: String) -> (r: CurrentSnapshotData)
        ensures
            final(self)@.snapshot == Some(r@),
            r@ == (SnapshotView { term, index, membership: old(self)@.hs.membership, pointer: pointer@ }),
            final(self)@.hs == old(self)@.hs,
            final(self)@.snapshot_dir == old(self)@.snapshot_dir,
            final(self)@.nodes == old(self)@.nodes,
    {
        let data = CurrentSnapshotData { term, index, membership: self.hs.membership.clone(), pointer };
        let r = data.clone();
        self.snapshot_data = Some(data);
        r
    }

    /// Records the snapshot just written to the file `pointer`: it covers the
    /// last entry read for it, whose index and term are `last` (both 0 when no
    /// entry was read), and the current membership.
    pub fn finish_snapshot(&mut self, last: Option<(u64, u64)>, pointer: String) -> (r:
        CurrentSnapshotData)
        ensures
            final(self)@.snapshot == Some(r@),
            r@ == (SnapshotView {
                term: match last {
                    Some(p) => p.1,
                    None => 0,
                },
                index: match last {
                    Some(p) => p.0,
                    None => 0,
                },
                membership: old(self)@.hs.membership,
                pointer: pointer@,
            }),
            final(self)@.hs == old(self)@.hs,
            final(self)@.snapshot_dir == old(self)@.snapshot_dir,
            final(self)@.nodes == old(self)@.nodes,
    {
        let (index, term) = match last {
            Some(p) => p,
            None => (0, 0),
        };
        self.set_snapshot(index, term, pointer)
    }

    /// Records a snapshot installed from the leader into the file `pointer`,
    /// covering the entry at `index` of `term`, with the current membership.
    pub fn install_snapshot(&mut self, index: u64, term: u64, pointer: String)
        ensures
            final(self)@.snapshot == Some(
                SnapshotView { term, index, membership: old(self)@.hs.membership, pointer: pointer@ },
            ),
            final(self)@.hs == old(self)@.hs,
            final(self)@.snapshot_dir == old(self)@.snapshot_dir,
            final(self)@.nodes == old(self)@.nodes,
    {
        self.set_snapshot(index, term, pointer);
    }

    /// The most recent snapshot, if any.
    pub fn get_current_snapshot(&self) -> (r: Option<CurrentSnapshotData>)
        ensures
            snapshot_view(r) == self@.snapshot,
    {
        match &self.snapshot_data {
            Some(d) => Some(d.clone()),
            None => None,
        }
    }

    /// The directory that holds the snapshot files.
    pub fn snapshot_dir(&self) -> (r: &String)
        ensures
            r@ == self@.snapshot_dir,
    {
        &self.snapshot_dir
    }

    /// The hard state the engine holds.
    pub fn hard_state(&self) -> (r: &HardState)
        ensures
            r@ == self@.hs,
    {
        &self.hs
    }
}

/// The reply to a lookup of a user's key (the answer to `/get/{key}`):
/// `true` when a value is stored for the key on this node, `false` when not.
pub fn find_reply(found: Option<Vec<u8>>) -> (r: String)
    ensures
        found is Some ==> r@ == "true"@,
        found is None ==> r@ == "false"@,
{
    match found {
        Some(_) => "true".to_owned(),
        None => "false".to_owned(),
    }
}

/// A fresh engine starts at term 0 with no vote and a plain membership of the
/// given members: not in joint consensus, no non-voters, nobody being removed.
pub proof fn lemma_fresh_hard_state(members: Seq<NodeId>)
    ensures
        initial_hard_state(members).current_term == 0,
        initial_hard_state(members).voted_for is None,
        initial_hard_state(members).membership.members == members,
        !initial_hard_state(members).membership.is_in_joint_consensus,
        initial_hard_state(members).membership.non_voters.len() == 0,
        initial_hard_state(members).membership.removing.len() == 0,
{
}

/// The record a run writes for an entry is the one `state_machine_record`
/// gives: the applied key of the entry's index, holding the entry's encoding
/// unchanged, so that start-up decodes the entry back from it.
pub proof fn lemma_run_record_is_applied_record(e: StateMachineEntry)
    ensures
        record_write(e).0 == applied_key_spec(e.entry.index),
        record_write(e).1 == e.entry.bytes@,
        record_write(e).1.len() == e.entry.bytes@.len(),
{
}

/// What an applied entry does to the node set: `Add(n)` puts `n` in and
/// keeps every other node, `Remove(n)` takes `n` out and keeps every other
/// node, and a user entry or an entry without data changes nothing.
pub proof fn lemma_node_set_after(nodes: Set<NodeId>, n: NodeId, x: NodeId, k: String, v: String)
    ensures
        nodes_after(nodes, MemoryStorageData::Add(n)).contains(x) <==> (nodes.contains(x) || x
            == n),
        nodes_after(nodes, MemoryStorageData::Remove(n)).contains(x) <==> (nodes.contains(x) && x
            != n),
        nodes_after(nodes, MemoryStorageData::My(k, v)) == nodes,
        nodes_after_entry(nodes, None) == nodes,
        nodes_after_entry(nodes, Some(MemoryStorageData::Add(n))).contains(x) <==> (nodes.contains(
            x,
        ) || x == n),
        nodes_after_entry(nodes, Some(MemoryStorageData::Remove(n))).contains(x) <==> (
        nodes.contains(x) && x != n),
        nodes_after_entry(nodes, Some(MemoryStorageData::My(k, v))) == nodes,
{
}

/// The applied write that a user entry asks for, and no write for any other
/// entry: the value's MessagePack encoding under the data key of the key.
pub proof fn lemma_data_write_asked(w: Option<KeyValue>, d: Option<MemoryStorageData>)
    ensures
        asks_data_write(w, d) ==> match d {
            Some(MemoryStorageData::My(k, v)) => w is Some && w.unwrap()@.0 == data_key_spec(
                encode_utf8(k@),
            ) && w.unwrap()@.1 == msgpack_str(encode_utf8(v@)),
            _ => w is None,
        },
{
}

} // verus!
