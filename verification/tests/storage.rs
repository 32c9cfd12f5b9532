use std::collections::HashMap;

use sand::raft::storage::{
    find_reply, highest_record, EncodedEntry, HardState, KeyValue, MembershipConfig, MemoryStorage,
    MemoryStorageData, MemoryStorageError, StateMachineEntry, StateMachineRun,
};
use sand::network::network::{ChangeRaftClusterConfig, ProposalOutcome};
use sand::rocksstore::keys::{applied_key, data_key, hard_state_key, log_key, lookup_key};

fn record(index: u64, value: &[u8]) -> KeyValue {
    KeyValue { key: log_key(index), value: value.to_vec() }
}

/// The log records in the order the database lists them: bytewise by key.
fn listing(mut records: Vec<KeyValue>) -> Vec<KeyValue> {
    records.sort_by(|a, b| a.key.cmp(&b.key));
    records
}

fn values(v: Vec<Vec<u8>>) -> Vec<String> {
    v.into_iter().map(|b| String::from_utf8(b).unwrap()).collect()
}

#[test]
fn read_range_of_contiguous_log() {
    let log = listing((1..=12).map(|i| record(i, format!("e{}", i).as_bytes())).collect());
    // bytewise order puts 10..12 before 2
    assert_eq!(log[1].key, b"00010".to_vec());
    let got = values(MemoryStorage::get_logs_entry(&log, 3, 11));
    assert_eq!(got, vec!["e3", "e4", "e5", "e6", "e7", "e8", "e9", "e10"]);
}

#[test]
fn read_past_the_last_entry_stops_at_the_end() {
    let log = listing((1..=4).map(|i| record(i, format!("e{}", i).as_bytes())).collect());
    let got = values(MemoryStorage::get_logs_entry(&log, 2, 100));
    assert_eq!(got, vec!["e2", "e3", "e4"]);
}

#[test]
fn read_stops_before_the_end_index_even_when_it_is_missing() {
    // index 4 is missing: the read still ends before it
    let log = listing(vec![record(1, b"a"), record(2, b"b"), record(3, b"c"), record(5, b"e")]);
    let got = values(MemoryStorage::get_logs_entry(&log, 1, 4));
    assert_eq!(got, vec!["a", "b", "c"]);
    // index 3 is missing and is the end: entries 1 and 2 only
    let log = listing(vec![record(1, b"a"), record(2, b"b"), record(4, b"d"), record(5, b"e")]);
    let got = values(MemoryStorage::get_logs_entry(&log, 1, 3));
    assert_eq!(got, vec!["a", "b"]);
}

#[test]
fn read_of_empty_range_is_empty() {
    let log = listing((1..=4).map(|i| record(i, b"x")).collect());
    assert!(MemoryStorage::get_logs_entry(&log, 3, 3).is_empty());
    assert!(MemoryStorage::get_logs_entry(&Vec::new(), 0, 10).is_empty());
}

#[test]
fn unparsable_keys_count_as_index_zero() {
    let log = listing(vec![
        KeyValue { key: b"000abc".to_vec(), value: b"z".to_vec() },
        record(1, b"a"),
        record(2, b"b"),
    ]);
    assert_eq!(values(MemoryStorage::get_logs_entry(&log, 0, 2)), vec!["z", "a"]);
    assert_eq!(values(MemoryStorage::get_logs_entry(&log, 1, 5)), vec!["a", "b"]);
}

#[test]
fn snapshot_reads_through_the_given_index() {
    let log = listing((1..=5).map(|i| record(i, format!("e{}", i).as_bytes())).collect());
    let got = values(MemoryStorage::create_snapshot_entries(&log, 3));
    assert_eq!(got, vec!["e1", "e2", "e3"]);
}

fn membership(members: Vec<u64>) -> MembershipConfig {
    MembershipConfig { is_in_joint_consensus: false, members, non_voters: vec![], removing: vec![] }
}

fn applied(index: u64) -> KeyValue {
    KeyValue { key: applied_key(index), value: vec![index as u8] }
}

#[test]
fn fresh_storage_reports_default_initial_state() {
    let mut s = MemoryStorage::new(vec![1, 2], "/tmp/snap".to_string());
    let init = s.get_initial_state(&Vec::new(), &Vec::new(), 9, None);
    assert_eq!(init.last_log_index, 0);
    assert_eq!(init.last_log_term, 0);
    assert_eq!(init.last_applied_log, 0);
    assert_eq!(init.hard_state.current_term, 0);
    assert_eq!(init.hard_state.voted_for, None);
    assert_eq!(init.hard_state.membership.members, vec![1, 2]);
    assert!(s.get_current_snapshot().is_none());
    assert_eq!(s.snapshot_dir(), "/tmp/snap");
}

#[test]
fn highest_record_is_by_index_not_by_key_bytes() {
    let log = listing((1..=10).map(|i| record(i, b"x")).collect());
    // bytewise, "0009" comes last; the highest index is 10
    assert_eq!(log.last().unwrap().key, log_key(9));
    let p = highest_record(&log).unwrap();
    assert_eq!(log[p].key, log_key(10));
    assert_eq!(highest_record(&Vec::new()), None);
    // of two records of the same index, the first listed
    let twice = vec![record(3, b"a"), record(1, b"b"), record(3, b"c")];
    assert_eq!(highest_record(&twice), Some(0));
}

#[test]
fn initial_state_adopts_saved_hard_state() {
    let mut s = MemoryStorage::new(vec![1], "d".to_string());
    let saved = HardState { current_term: 7, voted_for: Some(3), membership: membership(vec![3, 4]) };
    let log = listing((1..=12).map(|i| record(i, b"x")).collect());
    let applied = listing((1..=10).map(applied).collect());
    let init = s.get_initial_state(&log, &applied, 5, Some(saved));
    assert_eq!((init.last_log_index, init.last_log_term, init.last_applied_log), (12, 5, 10));
    assert_eq!(init.hard_state.current_term, 7);
    assert_eq!(s.hard_state().voted_for, Some(3));
    assert_eq!(s.hard_state().membership.members, vec![3, 4]);
}

#[test]
fn saved_hard_state_is_what_a_restart_reports() {
    let mut s = MemoryStorage::new(vec![1], "d".to_string());
    let hs = HardState { current_term: 4, voted_for: Some(2), membership: membership(vec![1, 2]) };
    let w = s.save_hard_state(hs, vec![1, 2, 3]);
    assert_eq!(s.hard_state().current_term, 4);
    // a fresh engine that reads the saved state back
    let mut fresh = MemoryStorage::new(vec![1], "d".to_string());
    assert_eq!(w.key, b"002hs".to_vec());
    let again = HardState { current_term: 4, voted_for: Some(2), membership: membership(vec![1, 2]) };
    let init = fresh.get_initial_state(&Vec::new(), &Vec::new(), 0, Some(again));
    assert_eq!(init.hard_state.current_term, 4);
    assert_eq!(init.hard_state.voted_for, Some(2));
    assert_eq!(fresh.hard_state().membership.members, vec![1, 2]);
}

#[test]
fn save_hard_state_writes_under_its_key() {
    let mut s = MemoryStorage::new(vec![1], "d".to_string());
    let hs = HardState { current_term: 2, voted_for: Some(1), membership: membership(vec![1]) };
    let w = s.save_hard_state(hs, vec![9, 8, 7]);
    assert_eq!(w.key, hard_state_key());
    assert_eq!(w.value, vec![9, 8, 7]);
    assert_eq!(s.hard_state().current_term, 2);
}

#[test]
fn log_writes_use_log_keys() {
    let w = MemoryStorage::append_entry_to_log(EncodedEntry { index: 5, bytes: vec![1, 2] });
    assert_eq!(w.key, b"0005".to_vec());
    assert_eq!(w.value, vec![1, 2]);
    let ws = MemoryStorage::replicate_to_log(&vec![
        EncodedEntry { index: 6, bytes: vec![6] },
        EncodedEntry { index: 7, bytes: vec![7] },
    ]);
    assert_eq!(ws.len(), 2);
    assert_eq!(ws[0].key, log_key(6));
    assert_eq!(ws[1].key, log_key(7));
    assert_eq!(ws[1].value, vec![7]);
    let a = MemoryStorage::state_machine_record(EncodedEntry { index: 5, bytes: vec![3] });
    assert_eq!(a.key, applied_key(5));
}

#[test]
fn applying_membership_entries_changes_the_node_set() {
    let mut s = MemoryStorage::new(vec![], "d".to_string());
    assert_eq!(s.apply_entry_to_state_machine(true, &Some(MemoryStorageData::Add(4))), Ok(None));
    assert_eq!(s.apply_entry_to_state_machine(true, &Some(MemoryStorageData::Add(9))), Ok(None));
    let mut ids = s.get_node();
    ids.sort();
    assert_eq!(ids, vec![4, 9]);
    assert_eq!(s.apply_entry_to_state_machine(true, &Some(MemoryStorageData::Remove(4))), Ok(None));
    assert_eq!(s.get_node(), vec![9]);
    assert_eq!(s.apply_entry_to_state_machine(true, &None), Ok(None));
    assert_eq!(s.get_node(), vec![9]);
}

#[test]
fn failed_record_fails_the_application() {
    let mut s = MemoryStorage::new(vec![], "d".to_string());
    let r = s.apply_entry_to_state_machine(false, &Some(MemoryStorageData::Add(4)));
    assert_eq!(r, Err(MemoryStorageError));
    assert!(s.get_node().is_empty());
}

#[test]
fn applying_user_data_writes_the_encoded_value() {
    let mut s = MemoryStorage::new(vec![], "d".to_string());
    let r = s.apply_entry_to_state_machine(
        true,
        &Some(MemoryStorageData::My("color".to_string(), "blue".to_string())),
    );
    let w = r.unwrap().unwrap();
    assert_eq!(w.key, data_key("color"));
    assert_eq!(w.value, rmp_serde::to_vec(&"blue".to_string()).unwrap());
    assert_eq!(w.value, vec![0xa4, b'b', b'l', b'u', b'e']);
    assert!(s.get_node().is_empty());
}

#[test]
fn long_values_get_wider_headers() {
    let mut s = MemoryStorage::new(vec![], "d".to_string());
    let v = "x".repeat(300);
    let w = s
        .apply_entry_to_state_machine(true, &Some(MemoryStorageData::My("k".to_string(), v.clone())))
        .unwrap()
        .unwrap();
    assert_eq!(&w.value[..3], &[0xda, 0x01, 0x2c]);
    assert_eq!(w.value, rmp_serde::to_vec(&v).unwrap());
}

#[test]
fn stored_key_is_found() {
    let mut s = MemoryStorage::new(vec![], "d".to_string());
    let w = s
        .apply_entry_to_state_machine(true, &Some(MemoryStorageData::My("k1".to_string(), "héllo".to_string())))
        .unwrap()
        .unwrap();
    // a lookup of the same key looks where the value went
    assert_eq!(lookup_key("k1".as_bytes()), w.key);
    assert_eq!(find_reply(Some(w.value)), "true");
}

#[test]
fn missing_key_is_not_found() {
    assert_eq!(find_reply(None), "false");
}

#[test]
fn recorded_user_entry_is_applied() {
    let mut s = MemoryStorage::new(vec![], "d".to_string());
    let r = s.apply_entry_to_state_machine(true, &Some(MemoryStorageData::My("k".to_string(), "v".to_string())));
    let w = r.unwrap().unwrap();
    assert_eq!(w.key, b"003k".to_vec());
    assert_eq!(w.value, vec![0xa1, b'v']);
}

#[test]
fn put_value_is_found_under_its_key() {
    let mut s = MemoryStorage::new(vec![], "d".to_string());
    let mut db: HashMap<Vec<u8>, Vec<u8>> = HashMap::new();
    for (k, v) in [("a", "one"), ("b", "two"), ("a", "three")] {
        let w = s
            .apply_entry_to_state_machine(true, &Some(MemoryStorageData::My(k.to_string(), v.to_string())))
            .unwrap()
            .unwrap();
        db.insert(w.key, w.value);
    }
    let found = db.get(&lookup_key(b"a")).cloned();
    assert_eq!(found, Some(rmp_serde::to_vec("three").unwrap()));
    assert_eq!(rmp_serde::from_slice::<String>(&found.clone().unwrap()).unwrap(), "three");
    assert_eq!(find_reply(found), "true");
    assert_eq!(find_reply(db.get(&lookup_key(b"c")).cloned()), "false");
}

fn sm_entry(index: u64, data: Option<MemoryStorageData>) -> StateMachineEntry {
    StateMachineEntry { entry: EncodedEntry { index, bytes: vec![index as u8] }, data }
}

/// Takes a run to its end, writing with `write`; returns the outcome and the keys written.
fn drive(
    s: &mut MemoryStorage,
    mut run: StateMachineRun,
    write: impl Fn(&KeyValue) -> bool,
) -> (Result<(), MemoryStorageError>, Vec<Vec<u8>>) {
    let mut keys = Vec::new();
    while let Some(record) = run.next_record() {
        keys.push(record.key.clone());
        let stored = write(&record);
        match run.record_written(s, stored) {
            Ok(Some(w)) => {
                keys.push(w.key.clone());
                write(&w);
            }
            Ok(None) => {}
            Err(e) => return (Err(e), keys),
        }
    }
    (run.outcome(), keys)
}

#[test]
fn replicating_to_the_state_machine_applies_in_order() {
    let mut s = MemoryStorage::new(vec![], "d".to_string());
    let run = MemoryStorage::replicate_to_state_machine(vec![
        sm_entry(1, Some(MemoryStorageData::Add(3))),
        sm_entry(2, Some(MemoryStorageData::My("a".to_string(), "b".to_string()))),
        sm_entry(3, None),
        sm_entry(4, Some(MemoryStorageData::Remove(3))),
        sm_entry(5, Some(MemoryStorageData::Add(8))),
    ]);
    let (r, keys) = drive(&mut s, run, |_| true);
    assert_eq!(r, Ok(()));
    assert_eq!(s.get_node(), vec![8]);
    assert_eq!(
        keys,
        vec![applied_key(1), applied_key(2), data_key("a"), applied_key(3), applied_key(4), applied_key(5)]
    );
}

#[test]
fn replicating_stops_at_the_first_failed_record() {
    let mut s = MemoryStorage::new(vec![], "d".to_string());
    let run = MemoryStorage::replicate_to_state_machine(vec![
        sm_entry(1, Some(MemoryStorageData::Add(3))),
        sm_entry(2, Some(MemoryStorageData::Add(4))),
        sm_entry(3, Some(MemoryStorageData::Add(5))),
    ]);
    let (r, keys) = drive(&mut s, run, |kv| kv.key != applied_key(2));
    assert_eq!(r, Err(MemoryStorageError));
    assert_eq!(s.get_node(), vec![3]);
    assert_eq!(keys, vec![applied_key(1), applied_key(2)]);
}

#[test]
fn a_failed_run_hands_out_nothing_more() {
    let mut s = MemoryStorage::new(vec![], "d".to_string());
    let mut run = MemoryStorage::replicate_to_state_machine(vec![sm_entry(1, None), sm_entry(2, None)]);
    assert!(run.next_record().is_some());
    assert_eq!(run.record_written(&mut s, false), Err(MemoryStorageError));
    assert!(run.next_record().is_none());
    assert_eq!(run.outcome(), Err(MemoryStorageError));
}

#[test]
fn rebuilding_from_a_snapshot_starts_from_no_nodes() {
    let mut s = MemoryStorage::new(vec![], "d".to_string());
    s.apply_entry_to_state_machine(true, &Some(MemoryStorageData::Add(7))).unwrap();
    let run = s.rebuild_state_machine_from_snapshot(vec![
        sm_entry(1, Some(MemoryStorageData::Add(1))),
        sm_entry(2, Some(MemoryStorageData::My("k".to_string(), "v".to_string()))),
        sm_entry(3, Some(MemoryStorageData::Add(2))),
    ]);
    assert!(s.get_node().is_empty());
    let (r, keys) = drive(&mut s, run, |_| true);
    assert_eq!(r, Ok(()));
    let mut ids = s.get_node();
    ids.sort();
    assert_eq!(ids, vec![1, 2]);
    assert_eq!(keys, vec![applied_key(1), applied_key(2), data_key("k"), applied_key(3)]);
}

#[test]
fn snapshots_keep_position_membership_and_file() {
    let mut s = MemoryStorage::new(vec![1, 2, 3], "d".to_string());
    let snap = s.finish_snapshot(Some((9, 2)), "d/9".to_string());
    assert_eq!((snap.index, snap.term), (9, 2));
    assert_eq!(snap.membership.members, vec![1, 2, 3]);
    assert_eq!(snap.pointer, "d/9");
    let cur = s.get_current_snapshot().unwrap();
    assert_eq!((cur.index, cur.term, cur.pointer.as_str()), (9, 2, "d/9"));
    let empty = s.finish_snapshot(None, "d/0".to_string());
    assert_eq!((empty.index, empty.term), (0, 0));
    s.install_snapshot(20, 4, "d/20".to_string());
    let cur = s.get_current_snapshot().unwrap();
    assert_eq!((cur.index, cur.term, cur.pointer.as_str()), (20, 4, "d/20"));
}

#[test]
fn accepted_membership_change_applied_to_the_node_set() {
    let mut s = MemoryStorage::new(vec![], "d".to_string());
    s.apply_entry_to_state_machine(true, &Some(MemoryStorageData::Add(1))).unwrap();
    s.apply_entry_to_state_machine(true, &Some(MemoryStorageData::Add(5))).unwrap();
    let change = ChangeRaftClusterConfig(vec![2, 5, 3], vec![1, 3]);
    for d in change.follow_ups(ProposalOutcome::Accepted).unwrap() {
        s.apply_entry_to_state_machine(true, &Some(d)).unwrap();
    }
    let mut ids = s.get_node();
    ids.sort();
    assert_eq!(ids, vec![2, 5]);
}

#[test]
fn user_keys_and_record_kinds_never_share_a_key() {
    let keys = vec![
        data_key("a"),
        data_key("b"),
        data_key(""),
        log_key(0),
        applied_key(0),
        hard_state_key(),
        data_key("hs"),
    ];
    for i in 0..keys.len() {
        for j in 0..keys.len() {
            if i != j {
                assert_ne!(keys[i], keys[j]);
            }
        }
    }
}
