//! Round-trip and deduplication behaviour of the two snapshot encodings.

use broker_persist::consolidate::{
    ConsolidatedSession, ConsolidatedState, Consolidator, Resolver, SimplifiedPublication,
};
use broker_persist::error::ErrorReason;
use broker_persist::format::{BincodeFormat, ConsolidatedStateFormat, FileFormat};
use broker_persist::state::{BrokerState, Publication, QoS, SessionState, Subscription};

fn publication(topic: &str, qos: QoS, retain: bool, payload: &[u8]) -> Publication {
    Publication {
        topic_name: topic.to_string(),
        qos,
        retain,
        payload: payload.to_vec(),
    }
}

fn subscription(filter: &str, max_qos: QoS) -> Subscription {
    Subscription {
        filter: filter.to_string(),
        max_qos,
    }
}

fn session(client: &str, subs: Vec<Subscription>, queue: Vec<Publication>) -> SessionState {
    SessionState {
        client_id: client.to_string(),
        subscriptions: subs,
        waiting_to_be_sent: queue,
    }
}

fn sample_state() -> BrokerState {
    BrokerState {
        retained: vec![
            (
                "sensors/temp".to_string(),
                publication("sensors/temp", QoS::AtLeastOnce, true, b"21.5"),
            ),
            (
                "sensors/t\u{f6}ne".to_string(),
                publication("sensors/t\u{f6}ne", QoS::ExactlyOnce, true, b"\x00\xff\x01"),
            ),
        ],
        sessions: vec![
            session(
                "client-a",
                vec![
                    subscription("sensors/#", QoS::AtMostOnce),
                    subscription("alerts/+", QoS::ExactlyOnce),
                ],
                vec![
                    publication("alerts/1", QoS::AtMostOnce, false, b"fire"),
                    publication("alerts/2", QoS::AtLeastOnce, false, b""),
                ],
            ),
            session("client-b", vec![], vec![]),
        ],
    }
}

#[test]
fn bincode_roundtrip() {
    let state = sample_state();
    let expected = state.clone();
    let format = BincodeFormat::new();
    let mut buffer: Vec<u8> = Vec::new();
    format.store(&mut buffer, state).unwrap();

    let loaded = format.load(buffer.as_slice()).unwrap();
    assert_eq!(expected, loaded);
}

#[test]
fn consolidate_simple() {
    let state = sample_state();
    let expected = state.clone();

    let consolidated = Consolidator::consolidate_state(state);
    assert_eq!(expected.retained.len(), consolidated.retained.len());
    assert_eq!(expected.sessions.len(), consolidated.sessions.len());

    let resolved = Resolver::resolve_state(consolidated).unwrap();
    assert_eq!(expected, resolved);
}

#[test]
fn consolidate_roundtrip() {
    let state = sample_state();
    let expected = state.clone();
    let format = ConsolidatedStateFormat::new();
    let mut buffer: Vec<u8> = Vec::new();
    format.store(&mut buffer, state).unwrap();

    let loaded = format.load(buffer.as_slice()).unwrap();
    assert_eq!(expected, loaded);
}

#[test]
fn empty_state_roundtrips_in_both_formats() {
    let state = BrokerState::empty();
    for direct in [true, false] {
        let mut buffer: Vec<u8> = Vec::new();
        let loaded = if direct {
            let format = BincodeFormat::new();
            format.store(&mut buffer, state.clone()).unwrap();
            format.load(buffer.as_slice()).unwrap()
        } else {
            let format = ConsolidatedStateFormat::new();
            format.store(&mut buffer, state.clone()).unwrap();
            format.load(buffer.as_slice()).unwrap()
        };
        assert_eq!(state, loaded);
        assert_eq!(loaded.retained.len(), 0);
        assert_eq!(loaded.sessions.len(), 0);
    }
}

#[test]
fn shared_payloads_are_deduplicated() {
    // One retained publication on "a/b" with payload b"hello", and two
    // sessions each queueing the same publication to "x" with payload
    // b"shared": three publications, two distinct payloads.
    let state = BrokerState {
        retained: vec![(
            "a/b".to_string(),
            publication("a/b", QoS::AtMostOnce, true, b"hello"),
        )],
        sessions: vec![
            session(
                "s1",
                vec![],
                vec![publication("x", QoS::AtLeastOnce, false, b"shared")],
            ),
            session(
                "s2",
                vec![],
                vec![publication("x", QoS::AtLeastOnce, false, b"shared")],
            ),
        ],
    };
    let expected = state.clone();

    let consolidated = Consolidator::consolidate_state(state.clone());
    assert_eq!(consolidated.payloads.len(), 2);
    let table: Vec<&[u8]> = consolidated.payloads.iter().map(|e| e.1.as_slice()).collect();
    assert!(table.contains(&b"hello".as_slice()));
    assert!(table.contains(&b"shared".as_slice()));
    // both sessions reference the same table entry
    let id1: u64 = consolidated.sessions[0].waiting_to_be_sent[0].payload;
    let id2: u64 = consolidated.sessions[1].waiting_to_be_sent[0].payload;
    assert_eq!(id1, id2);

    // the full codec reproduces all three publications exactly
    let format = ConsolidatedStateFormat::new();
    let mut buffer: Vec<u8> = Vec::new();
    format.store(&mut buffer, state).unwrap();
    let loaded = format.load(buffer.as_slice()).unwrap();
    assert_eq!(expected, loaded);
    assert_eq!(loaded.retained[0].1.payload, b"hello".to_vec());
    assert_eq!(loaded.sessions[0].waiting_to_be_sent[0].topic_name, "x");
    assert_eq!(
        loaded.sessions[0].waiting_to_be_sent[0].payload,
        b"shared".to_vec()
    );
    assert_eq!(
        loaded.sessions[1].waiting_to_be_sent[0].payload,
        b"shared".to_vec()
    );
}

#[test]
fn formats_reject_each_other() {
    let state = sample_state();
    let direct = BincodeFormat::new();
    let dedup = ConsolidatedStateFormat::new();

    let mut direct_bytes: Vec<u8> = Vec::new();
    direct.store(&mut direct_bytes, state.clone()).unwrap();
    assert_eq!(
        dedup.load(direct_bytes.as_slice()),
        Err(ErrorReason::Deserialize)
    );

    let mut dedup_bytes: Vec<u8> = Vec::new();
    dedup.store(&mut dedup_bytes, state).unwrap();
    assert_eq!(
        direct.load(dedup_bytes.as_slice()),
        Err(ErrorReason::Deserialize)
    );
}

#[test]
fn garbage_bytes_are_a_deserialize_error() {
    let format = BincodeFormat::new();
    assert_eq!(
        format.load(b"not a gzip stream at all"),
        Err(ErrorReason::Deserialize)
    );
    let dedup = ConsolidatedStateFormat::new();
    assert_eq!(dedup.load(&[]), Err(ErrorReason::Deserialize));
}

#[test]
fn tampered_bytes_do_not_load() {
    let state = sample_state();
    let format = BincodeFormat::new();
    let mut buffer: Vec<u8> = Vec::new();
    format.store(&mut buffer, state).unwrap();
    // flip one byte in the middle of the compressed stream
    let mid: usize = buffer.len() / 2;
    buffer[mid] ^= 0x40;
    assert!(format.load(buffer.as_slice()).is_err());
}

#[test]
fn missing_payload_reference_is_reported() {
    let consolidated = ConsolidatedState {
        payloads: vec![],
        retained: vec![],
        sessions: vec![ConsolidatedSession {
            client_id: "c".to_string(),
            subscriptions: vec![],
            waiting_to_be_sent: vec![SimplifiedPublication {
                topic_name: "t".to_string(),
                qos: QoS::AtMostOnce,
                retain: false,
                payload: 7,
            }],
        }],
    };
    assert_eq!(
        Resolver::resolve_state(consolidated),
        Err(ErrorReason::MissingPayload(7))
    );
}

#[test]
fn error_messages_name_the_failure() {
    assert_eq!(ErrorReason::Serialize.message(), "failed to serialize state");
    assert_eq!(
        ErrorReason::Deserialize.message(),
        "failed to deserialize state"
    );
    assert_eq!(
        ErrorReason::MissingPayload(3).message(),
        "state references a missing payload"
    );
}
