//! Behaviour of the versioned-file orchestrator over the directory model:
//! first runs, retention, and crash-point safety at every checkpoint.

use broker_persist::error::ErrorReason;
use broker_persist::format::{BincodeFormat, ConsolidatedStateFormat};
use broker_persist::memdir::MemDir;
use broker_persist::names::{staging_file_name, versioned_file_name};
use broker_persist::persist::{
    Checkpoint, FaultConfig, FilePersistor, NullPersistor, Persist,
};
use broker_persist::state::{BrokerState, Publication, QoS, SessionState};

fn state_with_marker(marker: &str) -> BrokerState {
    BrokerState {
        retained: vec![(
            "m".to_string(),
            Publication {
                topic_name: "m".to_string(),
                qos: QoS::AtLeastOnce,
                retain: true,
                payload: marker.as_bytes().to_vec(),
            },
        )],
        sessions: vec![SessionState {
            client_id: marker.to_string(),
            subscriptions: vec![],
            waiting_to_be_sent: vec![],
        }],
    }
}

#[test]
fn null_persistor_does_nothing() {
    let mut p = NullPersistor;
    assert_eq!(p.load(), Ok(None));
    assert_eq!(p.store(state_with_marker("x")), Ok(()));
    assert_eq!(p.load(), Ok(None));
}

#[test]
fn first_run_load_returns_no_state() {
    let p = FilePersistor::new("broker-state".to_string(), BincodeFormat::new());
    let dir = MemDir::new();
    assert_eq!(p.load(&dir), Ok(None));
}

#[test]
fn filepersistor_smoketest() {
    let mut persistor =
        FilePersistor::new("broker-state".to_string(), ConsolidatedStateFormat::new());
    let mut dir = MemDir::new();

    persistor.store(&mut dir, BrokerState::empty()).unwrap();
    let state = persistor.load(&dir).unwrap().unwrap();
    assert_eq!(BrokerState::empty(), state);
}

#[test]
fn second_store_wins() {
    let mut persistor =
        FilePersistor::new("broker-state".to_string(), BincodeFormat::new());
    let mut dir = MemDir::new();

    persistor.store(&mut dir, state_with_marker("one")).unwrap();
    persistor.store(&mut dir, state_with_marker("two")).unwrap();
    let state = persistor.load(&dir).unwrap().unwrap();
    assert_eq!(state, state_with_marker("two"));
}

#[test]
fn retention_keeps_min_of_n_and_k() {
    let mut persistor = FilePersistor::new("broker-state".to_string(), BincodeFormat::new())
        .with_previous_count(3);
    let mut dir = MemDir::new();

    for n in 1u64..=6 {
        persistor
            .store_with_stamp(&mut dir, state_with_marker("s"), n)
            .unwrap();
        let expected: usize = if n < 3 { n as usize } else { 3 };
        assert_eq!(dir.file_count(), expected);
        // no stray staging link, and the stable link resolves
        let staging = staging_file_name(persistor.stem(), persistor.ext());
        assert!(!dir.has_link(&staging));
        assert_eq!(persistor.load(&dir).unwrap().unwrap(), state_with_marker("s"));
    }
}

#[test]
fn retention_minimum_is_one() {
    let persistor = FilePersistor::new("broker-state".to_string(), BincodeFormat::new())
        .with_previous_count(0);
    assert_eq!(persistor.previous_count(), 1);

    let mut persistor = persistor;
    let mut dir = MemDir::new();
    for n in 1u64..=4 {
        persistor
            .store_with_stamp(&mut dir, state_with_marker("s"), n)
            .unwrap();
        assert_eq!(dir.file_count(), 1);
    }
}

#[test]
fn retention_keeps_the_newest_files() {
    let mut persistor = FilePersistor::new("broker-state".to_string(), BincodeFormat::new())
        .with_previous_count(2);
    let mut dir = MemDir::new();
    for n in 1u64..=5 {
        persistor
            .store_with_stamp(&mut dir, state_with_marker("s"), n)
            .unwrap();
    }
    let names = dir.list_files();
    assert_eq!(names.len(), 2);
    // sequence numbers 4 and 5 went with stamps 4 and 5
    let expected4 = versioned_file_name(persistor.stem(), persistor.ext(), 4, 4);
    let expected5 = versioned_file_name(persistor.stem(), persistor.ext(), 5, 5);
    assert!(names.contains(&expected4));
    assert!(names.contains(&expected5));
}

/// Arms one store checkpoint after a successful first store, attempts a
/// second store, and reports what a subsequent clean load returns.
fn run_faulted_second_store(c: Checkpoint) -> (Result<(), ErrorReason>, Option<BrokerState>) {
    let mut persistor =
        FilePersistor::new("broker-state".to_string(), BincodeFormat::new());
    let mut dir = MemDir::new();
    persistor
        .store_with_stamp(&mut dir, state_with_marker("good"), 1)
        .unwrap();

    let mut armed = persistor.with_faults(FaultConfig::arm(c));
    let r = armed.store_with_stamp(&mut dir, state_with_marker("next"), 2);

    let quiet = armed.with_faults(FaultConfig::none());
    let loaded = quiet.load(&dir).unwrap();
    (r, loaded)
}

#[test]
fn faults_before_the_commit_keep_the_old_state() {
    for c in [
        Checkpoint::StoreCreateDir,
        Checkpoint::StoreFileOpen,
        Checkpoint::StoreSerialize,
        Checkpoint::StoreSymlink,
        Checkpoint::StoreFileRename,
    ] {
        let (r, loaded) = run_faulted_second_store(c);
        assert!(r.is_err());
        assert_eq!(loaded, Some(state_with_marker("good")));
    }
}

#[test]
fn faults_after_the_commit_expose_the_new_state() {
    let (r, loaded) = run_faulted_second_store(Checkpoint::StoreReadDir);
    assert!(r.is_err());
    assert_eq!(loaded, Some(state_with_marker("next")));

    // the unlink checkpoint fires only when the prune has a victim, so
    // retain a single file and let the second store prune the first
    let mut persistor = FilePersistor::new("broker-state".to_string(), BincodeFormat::new())
        .with_previous_count(1);
    let mut dir = MemDir::new();
    persistor
        .store_with_stamp(&mut dir, state_with_marker("good"), 1)
        .unwrap();
    let mut armed = persistor.with_faults(FaultConfig::arm(Checkpoint::StoreEntryUnlink));
    let r = armed.store_with_stamp(&mut dir, state_with_marker("next"), 2);
    assert!(matches!(r, Err(ErrorReason::FileUnlink(_))));
    let quiet = armed.with_faults(FaultConfig::none());
    assert_eq!(quiet.load(&dir).unwrap(), Some(state_with_marker("next")));
}

#[test]
fn unreached_cleanup_checkpoint_does_not_fire() {
    // the new-file cleanup runs only when encoding fails, so arming it alone
    // leaves the store untouched
    let (r, loaded) = run_faulted_second_store(Checkpoint::StoreNewFileUnlink);
    assert_eq!(r, Ok(()));
    assert_eq!(loaded, Some(state_with_marker("next")));
}

#[test]
fn faulted_first_store_leaves_no_prior_state() {
    for c in [
        Checkpoint::StoreCreateDir,
        Checkpoint::StoreFileOpen,
        Checkpoint::StoreSerialize,
        Checkpoint::StoreSymlink,
        Checkpoint::StoreFileRename,
    ] {
        let mut persistor = FilePersistor::new("broker-state".to_string(), BincodeFormat::new())
            .with_faults(FaultConfig::arm(c));
        let mut dir = MemDir::new();
        let r = persistor.store_with_stamp(&mut dir, state_with_marker("first"), 1);
        assert!(r.is_err());
        let quiet = persistor.with_faults(FaultConfig::none());
        assert_eq!(quiet.load(&dir), Ok(None));
    }
}

#[test]
fn stale_staging_link_is_cleared_on_the_next_store() {
    let mut persistor =
        FilePersistor::new("broker-state".to_string(), BincodeFormat::new());
    let mut dir = MemDir::new();
    persistor
        .store_with_stamp(&mut dir, state_with_marker("good"), 1)
        .unwrap();

    // a store aborted between linking and renaming leaves the staging link
    let mut armed = persistor.with_faults(FaultConfig::arm(Checkpoint::StoreFileRename));
    let staging = staging_file_name(armed.stem(), armed.ext());
    assert!(armed
        .store_with_stamp(&mut dir, state_with_marker("lost"), 2)
        .is_err());
    assert!(dir.has_link(&staging));

    // arming the unlink checkpoint now trips over the leftover link
    let mut unlink_armed = armed.with_faults(FaultConfig::arm(Checkpoint::StoreSymlinkUnlink));
    let r = unlink_armed.store_with_stamp(&mut dir, state_with_marker("also-lost"), 3);
    assert!(matches!(r, Err(ErrorReason::SymlinkUnlink(_))));

    // and a clean store clears it and commits
    let mut quiet = unlink_armed.with_faults(FaultConfig::none());
    quiet
        .store_with_stamp(&mut dir, state_with_marker("fresh"), 4)
        .unwrap();
    assert!(!dir.has_link(&staging));
    assert_eq!(quiet.load(&dir).unwrap(), Some(state_with_marker("fresh")));
}

#[test]
fn load_faults_surface_as_errors() {
    let mut persistor =
        FilePersistor::new("broker-state".to_string(), BincodeFormat::new());
    let mut dir = MemDir::new();
    persistor
        .store_with_stamp(&mut dir, state_with_marker("good"), 1)
        .unwrap();

    let open_armed = persistor.with_faults(FaultConfig::arm(Checkpoint::LoadFileOpen));
    assert!(matches!(open_armed.load(&dir), Err(ErrorReason::FileOpen(_))));

    let de_armed = open_armed.with_faults(FaultConfig::arm(Checkpoint::LoadDeserialize));
    assert_eq!(de_armed.load(&dir), Err(ErrorReason::Deserialize));

    // load faults do not fire on an empty directory
    let empty = MemDir::new();
    assert_eq!(de_armed.load(&empty), Ok(None));
}

#[test]
fn dangling_stable_link_is_a_file_open_error() {
    let persistor = FilePersistor::new("broker-state".to_string(), BincodeFormat::new());
    let mut dir = MemDir::new();
    dir.create();
    let stable = {
        let mut n = persistor.stem().clone();
        n.push(b'.');
        n.extend_from_slice(persistor.ext());
        n
    };
    dir.create_link(&stable, &b"nowhere".to_vec());
    assert!(matches!(persistor.load(&dir), Err(ErrorReason::FileOpen(_))));
}
