use replication_log::aligner::{Aligner, AlignmentAction, AlignmentInput, ReplicaState};
use replication_log::configuration::{Configuration, ReplicaConfig, NANOS_PER_MILLI};
use replication_log::digest::compare_digests;
use replication_log::error::ReplicationError;
use replication_log::event::{Action, Event, EventInsertion, Timestamp};
use replication_log::fingerprint::Fingerprint;
use replication_log::log::{
    check_storage_capability, History, LogLatest, BLOOM_BITMAP_BYTES, BLOOM_CAPACITY,
};

const NID1: u128 = 1;
const NID2: u128 = 2;

fn test_config() -> ReplicaConfig {
    ReplicaConfig {
        // ten milliseconds per interval, two sub-intervals of five each
        interval_duration: 10 * NANOS_PER_MILLI,
        sub_intervals: 2,
        hot_era_size: 2,
        warm_era_size: 2,
        propagation_delay: 100,
    }
}

fn test_log() -> LogLatest {
    LogLatest::new(b"replica/**".to_vec(), None, test_config())
}

fn event(key: &str, time: u64, node_id: u128, action: Action) -> Event {
    Event::new(
        Some(key.as_bytes().to_vec()),
        Timestamp { time, node_id },
        action,
    )
}

#[test]
fn scenario_new_key() {
    let mut log = test_log();
    let e1 = event("a/b", 100, NID1, Action::Put);
    let outcome = log.insert_event(e1.clone());
    assert_eq!(outcome, EventInsertion::New(e1.clone()));
    let key = Some(b"a/b".to_vec());
    assert_eq!(log.lookup(&key), Some(&e1));

    // time 100 ms with 10 ms intervals: interval 10, first sub-interval
    let (interval_idx, sub_idx) = log.configuration().get_time_classification(100).unwrap();
    assert_eq!((interval_idx, sub_idx), (10, 0));

    // with the hot era ending at that interval, the event lands in the hot era
    let digest = log.digest_from(interval_idx);
    assert_eq!(digest.hot_era_fingerprints.len(), 1);
    assert_eq!(digest.hot_era_fingerprints[0].0, 10);
    assert_eq!(digest.hot_era_fingerprints[0].1, vec![(0, e1.fingerprint())]);
    assert_eq!(digest.warm_era_fingerprints.len(), 0);
    assert_eq!(digest.cold_era_fingerprint, Fingerprint { value: 0 });
}

#[test]
fn scenario_replace_older() {
    let mut log = test_log();
    let e1 = event("a/b", 100, NID1, Action::Put);
    let e2 = event("a/b", 200, NID1, Action::Put);
    log.insert_event(e1.clone());
    let outcome = log.insert_event(e2.clone());
    assert_eq!(outcome, EventInsertion::ReplacedOlder(e1));
    assert_eq!(log.lookup(&Some(b"a/b".to_vec())), Some(&e2));
}

#[test]
fn scenario_kept_newer() {
    let mut log = test_log();
    log.insert_event(event("a/b", 100, NID1, Action::Put));
    log.insert_event(event("a/b", 200, NID1, Action::Put));
    let outcome = log.insert_event(event("a/b", 150, NID1, Action::Put));
    assert_eq!(outcome, EventInsertion::NotInsertedAsOlder);
}

#[test]
fn scenario_tie_keeps_incumbent() {
    let mut log = test_log();
    let e2 = event("a/b", 200, NID1, Action::Put);
    log.insert_event(event("a/b", 100, NID1, Action::Put));
    log.insert_event(e2.clone());
    let before = log.digest_from(20);
    let outcome = log.insert_event(event("a/b", 200, NID1, Action::Delete));
    assert_eq!(outcome, EventInsertion::NotInsertedAsOlder);
    assert_eq!(log.lookup(&Some(b"a/b".to_vec())), Some(&e2));
    let after = log.digest_from(20);
    assert_eq!(before.cold_era_fingerprint, after.cold_era_fingerprint);
    assert_eq!(before.warm_era_fingerprints, after.warm_era_fingerprints);
    assert_eq!(before.hot_era_fingerprints, after.hot_era_fingerprints);
}

#[test]
fn scenario_out_of_bound() {
    let mut log = test_log();
    let outcome = log.insert_event(event("a/b", u64::MAX, NID1, Action::Put));
    assert_eq!(outcome, EventInsertion::NotInsertedAsOutOfBound);
    assert_eq!(log.lookup(&Some(b"a/b".to_vec())), None);

    // the out-of-bound event left no trace: a later publication on the same
    // key is new, and a distinct key stays clean
    let e = event("a/b", 100, NID1, Action::Put);
    assert_eq!(log.insert_event(e.clone()), EventInsertion::New(e));
    assert_eq!(log.lookup(&Some(b"c/d".to_vec())), None);
}

#[test]
fn scenario_digest_alignment() {
    let mut l1 = test_log();
    let mut l2 = test_log();
    let e2 = event("a/b", 200, NID1, Action::Put);
    l1.insert_event(e2.clone());

    let d1 = l1.digest_from(20);
    let d2 = l2.digest_from(20);
    let diff = compare_digests(&d1, &d2).unwrap();
    assert!(!diff.cold_mismatch);
    assert_eq!(diff.warm_intervals, Vec::<u64>::new());
    assert_eq!(diff.hot_sub_intervals, vec![(20, vec![0])]);

    l2.update(vec![e2]);
    let d1b = l1.digest_from(20);
    let d2b = l2.digest_from(20);
    let diff = compare_digests(&d1b, &d2b).unwrap();
    assert!(!diff.cold_mismatch);
    assert!(diff.warm_intervals.is_empty());
    assert!(diff.hot_sub_intervals.is_empty());
}

#[test]
fn uniqueness_one_event_per_key() {
    let mut log = test_log();
    for t in [100u64, 300, 200, 250, 400] {
        log.insert_event(event("a/b", t, NID1, Action::Put));
    }
    // only the latest survives, under any insertion order
    let got = log.lookup(&Some(b"a/b".to_vec())).unwrap().clone();
    assert_eq!(*got.timestamp(), Timestamp { time: 400, node_id: NID1 });
    // and the digest carries exactly one fingerprint for it
    let d = log.digest_from(40);
    let total: usize = d
        .hot_era_fingerprints
        .iter()
        .map(|(_, subs)| subs.len())
        .sum::<usize>()
        + d.warm_era_fingerprints.len();
    assert_eq!(total, 1);
}

#[test]
fn lww_convergence_on_concrete_batches() {
    let a = vec![
        event("a/b", 100, NID1, Action::Put),
        event("c/d", 180, NID1, Action::Put),
        event("a/b", 160, NID2, Action::Delete),
    ];
    let b = vec![
        event("c/d", 240, NID2, Action::Put),
        event("a/b", 140, NID2, Action::Put),
    ];

    let mut l1 = test_log();
    let mut ab = a.clone();
    ab.extend(b.clone());
    l1.update(ab);

    let mut l2 = test_log();
    let mut ba = b.clone();
    ba.extend(a.clone());
    l2.update(ba);

    for key in ["a/b", "c/d"] {
        let k = Some(key.as_bytes().to_vec());
        assert_eq!(l1.lookup(&k), l2.lookup(&k));
    }
    let d1 = l1.digest_from(30);
    let d2 = l2.digest_from(30);
    assert_eq!(d1.cold_era_fingerprint, d2.cold_era_fingerprint);
    assert_eq!(d1.warm_era_fingerprints, d2.warm_era_fingerprints);
    assert_eq!(d1.hot_era_fingerprints, d2.hot_era_fingerprints);
}

#[test]
fn fingerprint_homomorphism_in_digest() {
    let mut log = test_log();
    // both events land in interval 10; sub-intervals 0 and 1
    let e1 = event("a/b", 100, NID1, Action::Put);
    let e2 = event("c/d", 105, NID1, Action::Put);
    log.insert_event(e1.clone());
    log.insert_event(e2.clone());

    // hot era at interval 10: one fingerprint per sub-interval
    let hot = log.digest_from(10).hot_era_fingerprints;
    assert_eq!(
        hot,
        vec![(10, vec![(0, e1.fingerprint()), (1, e2.fingerprint())])]
    );

    // warm era (upper 12, hot era 11..=12): one XOR per interval
    let warm = log.digest_from(12).warm_era_fingerprints;
    let combined = Fingerprint { value: e1.fingerprint().value ^ e2.fingerprint().value };
    assert_eq!(warm, vec![(10, combined)]);

    // cold era (upper 14): a single XOR over everything
    let d = log.digest_from(14);
    assert_eq!(d.cold_era_fingerprint, combined);
    assert!(d.warm_era_fingerprints.is_empty());
}

#[test]
fn digest_stability() {
    let mut log = test_log();
    log.insert_event(event("a/b", 100, NID1, Action::Put));
    log.insert_event(event("c/d", 230, NID2, Action::Delete));
    let d1 = log.digest_from(23);
    let d2 = log.digest_from(23);
    assert_eq!(d1.configuration_fingerprint, d2.configuration_fingerprint);
    assert_eq!(d1.cold_era_fingerprint, d2.cold_era_fingerprint);
    assert_eq!(d1.warm_era_fingerprints, d2.warm_era_fingerprints);
    assert_eq!(d1.hot_era_fingerprints, d2.hot_era_fingerprints);
}

#[test]
fn idempotent_reinsertion() {
    let mut log = test_log();
    let e = event("a/b", 100, NID1, Action::Put);
    assert_eq!(log.insert_event(e.clone()), EventInsertion::New(e.clone()));
    let before = log.digest_from(10);
    assert_eq!(log.insert_event(e.clone()), EventInsertion::NotInsertedAsOlder);
    let after = log.digest_from(10);
    assert_eq!(log.lookup(&Some(b"a/b".to_vec())), Some(&e));
    assert_eq!(before.cold_era_fingerprint, after.cold_era_fingerprint);
    assert_eq!(before.warm_era_fingerprints, after.warm_era_fingerprints);
    assert_eq!(before.hot_era_fingerprints, after.hot_era_fingerprints);
}

#[test]
fn configuration_mismatch_aborts_comparison() {
    let mut l1 = LogLatest::new(b"one/**".to_vec(), None, test_config());
    let l2 = LogLatest::new(b"two/**".to_vec(), None, test_config());
    l1.insert_event(event("a/b", 100, NID1, Action::Put));
    let d1 = l1.digest_from(10);
    let d2 = l2.digest_from(10);
    assert_eq!(
        compare_digests(&d1, &d2).unwrap_err(),
        ReplicationError::ConfigurationMismatch
    );
}

#[test]
fn time_classification_values() {
    let configuration = Configuration::new(b"replica/**".to_vec(), None, test_config());
    assert_eq!(configuration.get_time_classification(0).unwrap(), (0, 0));
    assert_eq!(configuration.get_time_classification(100).unwrap(), (10, 0));
    assert_eq!(configuration.get_time_classification(105).unwrap(), (10, 1));
    assert_eq!(configuration.get_time_classification(109).unwrap(), (10, 1));
    assert_eq!(configuration.get_time_classification(110).unwrap(), (11, 0));

    // the last time whose position in nanoseconds still fits in a u64
    let limit = u64::MAX / NANOS_PER_MILLI;
    assert!(configuration.get_time_classification(limit).is_ok());
    assert_eq!(
        configuration.get_time_classification(limit + 1).unwrap_err(),
        ReplicationError::OutOfBound
    );
}

#[test]
fn era_bounds_saturate_at_zero() {
    let configuration = Configuration::new(b"replica/**".to_vec(), None, test_config());
    // hot era of two intervals ending at 10: intervals 9 and 10
    assert_eq!(configuration.hot_era_lower_bound(10), 9);
    // warm era of two more: intervals 7 and 8
    assert_eq!(configuration.warm_era_lower_bound(10), 7);
    // near the epoch both bounds saturate
    assert_eq!(configuration.hot_era_lower_bound(0), 0);
    assert_eq!(configuration.warm_era_lower_bound(0), 0);
    assert_eq!(configuration.warm_era_lower_bound(1), 0);
}

#[test]
fn event_fingerprint_matches_reference_hash() {
    let e = event("a/b", 100, NID1, Action::Put);
    let mut bytes = Vec::new();
    bytes.extend_from_slice(b"a/b");
    bytes.extend_from_slice(&100u64.to_le_bytes());
    bytes.extend_from_slice(&NID1.to_le_bytes());
    assert_eq!(e.fingerprint().value, xxhash_rust::xxh3::xxh3_64(&bytes));

    // an event without a key hashes timestamp and node id alone
    let bare = Event::new(None, Timestamp { time: 7, node_id: NID2 }, Action::Delete);
    let mut bytes = Vec::new();
    bytes.extend_from_slice(&7u64.to_le_bytes());
    bytes.extend_from_slice(&NID2.to_le_bytes());
    assert_eq!(bare.fingerprint().value, xxhash_rust::xxh3::xxh3_64(&bytes));
}

#[test]
fn configuration_fingerprint_matches_reference_hash() {
    let rc = test_config();
    let configuration = Configuration::new(b"replica/**".to_vec(), Some(b"p".to_vec()), rc);
    let mut bytes = Vec::new();
    bytes.extend_from_slice(b"replica/**");
    bytes.extend_from_slice(b"p");
    bytes.extend_from_slice(&rc.interval_duration.to_le_bytes());
    bytes.extend_from_slice(&(rc.sub_intervals as u64).to_le_bytes());
    bytes.extend_from_slice(&rc.hot_era_size.to_le_bytes());
    bytes.extend_from_slice(&rc.warm_era_size.to_le_bytes());
    bytes.extend_from_slice(&rc.propagation_delay.to_le_bytes());
    assert_eq!(
        configuration.fingerprint().value,
        xxhash_rust::xxh3::xxh3_64(&bytes)
    );

    // equal inputs give equal fingerprints, across instances
    let again = Configuration::new(b"replica/**".to_vec(), Some(b"p".to_vec()), rc);
    assert_eq!(configuration.fingerprint(), again.fingerprint());
}

#[test]
fn bloom_sizing_matches_crate_formula() {
    assert_eq!(BLOOM_CAPACITY, 2 << 22);
    assert_eq!(
        BLOOM_BITMAP_BYTES,
        bloomfilter::Bloom::<Option<Vec<u8>>>::compute_bitmap_size(BLOOM_CAPACITY, 0.01)
    );
}

#[test]
fn xor_identity_and_self_inverse() {
    let a = Fingerprint { value: 0xdead_beef };
    assert_eq!(a.xor(Fingerprint { value: 0 }), a);
    assert_eq!(a.xor(a), Fingerprint { value: 0 });
    let b = Fingerprint { value: 0x1234 };
    assert_eq!(a.xor(b), b.xor(a));
}

#[test]
fn digest_from_wall_clock() {
    let mut log = test_log();
    log.insert_event(event("a/b", 100, NID1, Action::Put));
    // the wall clock lies far past interval 10, so the event has aged into
    // the cold era by now
    let digest = log.digest().unwrap();
    assert_ne!(digest.cold_era_fingerprint, Fingerprint { value: 0 });
}

#[test]
fn storage_capability_gate() {
    assert_eq!(check_storage_capability(History::Latest), Ok(()));
    assert_eq!(
        check_storage_capability(History::All),
        Err(ReplicationError::StorageIncompatible)
    );
}

#[test]
fn aligner_transitions_and_backoff() {
    let mut aligner = Aligner::new(10);
    assert_eq!(aligner.state, ReplicaState::Fresh);

    assert_eq!(
        aligner.step(AlignmentInput::DigestDiverged),
        AlignmentAction::SendRequests
    );
    assert_eq!(aligner.state, ReplicaState::Aligning);

    // timeouts double the delay, capped at thirty interval durations
    assert_eq!(
        aligner.step(AlignmentInput::RequestTimedOut),
        AlignmentAction::RetryAfter(20)
    );
    assert_eq!(
        aligner.step(AlignmentInput::RequestTimedOut),
        AlignmentAction::RetryAfter(40)
    );
    for _ in 0..5 {
        aligner.step(AlignmentInput::RequestTimedOut);
    }
    assert_eq!(
        aligner.step(AlignmentInput::RequestTimedOut),
        AlignmentAction::RetryAfter(300)
    );

    assert_eq!(aligner.step(AlignmentInput::EventsApplied), AlignmentAction::Idle);
    assert_eq!(aligner.state, ReplicaState::Aligned);

    // a later divergence re-enters alignment with a fresh backoff
    assert_eq!(
        aligner.step(AlignmentInput::DigestDiverged),
        AlignmentAction::SendRequests
    );
    assert_eq!(aligner.state, ReplicaState::Aligning);
    assert_eq!(
        aligner.step(AlignmentInput::RequestTimedOut),
        AlignmentAction::RetryAfter(20)
    );

    // a configuration mismatch is terminal
    assert_eq!(
        aligner.step(AlignmentInput::ConfigurationMismatched),
        AlignmentAction::Idle
    );
    assert_eq!(aligner.state, ReplicaState::Divergent);
    assert_eq!(aligner.step(AlignmentInput::DigestDiverged), AlignmentAction::Idle);
    assert_eq!(aligner.state, ReplicaState::Divergent);
}

#[test]
fn lookup_uses_bare_key_too() {
    let mut log = test_log();
    let bare = Event::new(None, Timestamp { time: 100, node_id: NID1 }, Action::Put);
    assert_eq!(log.insert_event(bare.clone()), EventInsertion::New(bare.clone()));
    assert_eq!(log.lookup(&None), Some(&bare));
    assert_eq!(log.lookup(&Some(b"a/b".to_vec())), None);
}

#[test]
fn out_of_bound_insert_still_removes_older() {
    // the scan for an older event happens before classification, so an
    // unclassifiable newer event drops the incumbent without replacing it
    let mut log = test_log();
    let e = event("a/b", 100, NID1, Action::Put);
    log.insert_event(e);
    let outcome = log.insert_event(event("a/b", u64::MAX, NID1, Action::Put));
    assert_eq!(outcome, EventInsertion::NotInsertedAsOutOfBound);
    assert_eq!(log.lookup(&Some(b"a/b".to_vec())), None);
}

#[test]
fn empty_hot_interval_omitted() {
    // e1 lands in interval 19, e2 in interval 20; replacing e1 with e2
    // empties interval 19, which must then be left out of the hot era
    let mut log = test_log();
    let e1 = event("a/b", 195, NID1, Action::Put);
    let e2 = event("a/b", 205, NID1, Action::Put);
    log.insert_event(e1.clone());
    assert_eq!(log.insert_event(e2.clone()), EventInsertion::ReplacedOlder(e1));

    // hot era of upper 20 covers intervals 19 and 20
    let digest = log.digest_from(20);
    assert_eq!(digest.hot_era_fingerprints, vec![(20, vec![(1, e2.fingerprint())])]);
    assert!(digest.warm_era_fingerprints.is_empty());
    assert_eq!(digest.cold_era_fingerprint, Fingerprint { value: 0 });
}
