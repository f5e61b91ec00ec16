use signal_engine::ratchet::MAX_SKIP;
use signal_engine::{DhKeyPair, MessageHeader, RatchetMessage, SessionState, SignalError};

fn pair() -> (SessionState, SessionState) {
    let shared_secret = [0x42u8; 32];
    let bob_ratchet = DhKeyPair::generate();
    let alice_ratchet = DhKeyPair::generate();
    let alice = SessionState::initialize_alice(&shared_secret, alice_ratchet, &bob_ratchet.public_key()).unwrap();
    let bob = SessionState::initialize_bob(&shared_secret, bob_ratchet);
    (alice, bob)
}

#[test]
fn test_ratchet_encrypt_decrypt() {
    let shared_secret = [0x42u8; 32];
    let bob_ratchet = DhKeyPair::generate();
    let alice_ratchet = DhKeyPair::generate();
    let mut alice_session =
        SessionState::initialize_alice(&shared_secret, alice_ratchet.clone(), &bob_ratchet.public_key()).unwrap();
    let mut bob_session = SessionState::initialize_bob(&shared_secret, bob_ratchet);
    let plaintext = b"Hello, Bob!";
    let message = alice_session.encrypt(plaintext).unwrap();
    let decrypted = bob_session.decrypt(&message).unwrap();
    assert_eq!(plaintext.as_slice(), decrypted.as_slice());
}

#[test]
fn many_messages_both_ways() {
    let (mut alice, mut bob) = pair();
    for round in 0..5u8 {
        for i in 0..3u8 {
            let text = vec![round, i, 1];
            let m = alice.encrypt(&text).unwrap();
            assert_eq!(bob.decrypt(&m).unwrap(), text);
        }
        let reply = vec![round, 9];
        let m = bob.encrypt(&reply).unwrap();
        assert_eq!(alice.decrypt(&m).unwrap(), reply);
    }
    let empty = alice.encrypt(b"").unwrap();
    assert_eq!(bob.decrypt(&empty).unwrap(), Vec::<u8>::new());
}

#[test]
fn out_of_order_delivery() {
    let (mut alice, mut bob) = pair();
    let m0 = alice.encrypt(b"zero").unwrap();
    let m1 = alice.encrypt(b"one").unwrap();
    let m2 = alice.encrypt(b"two").unwrap();
    assert_eq!(bob.decrypt(&m0).unwrap(), b"zero");
    assert_eq!(bob.decrypt(&m2).unwrap(), b"two");
    assert_eq!(bob.skipped_key_count(), 1);
    assert_eq!(bob.decrypt(&m1).unwrap(), b"one");
    assert_eq!(bob.skipped_key_count(), 0);
}

#[test]
fn late_message_from_previous_chain() {
    let (mut alice, mut bob) = pair();
    let first = alice.encrypt(b"first").unwrap();
    let late = alice.encrypt(b"late").unwrap();
    assert_eq!(bob.decrypt(&first).unwrap(), b"first");
    let reply = bob.encrypt(b"reply").unwrap();
    assert_eq!(alice.decrypt(&reply).unwrap(), b"reply");
    let next = alice.encrypt(b"next").unwrap();
    assert_eq!(next.header.previous_counter, 2);
    assert_eq!(bob.decrypt(&next).unwrap(), b"next");
    assert_eq!(bob.decrypt(&late).unwrap(), b"late");
}

#[test]
fn skip_bound_refuses_and_keeps_state() {
    let (mut alice, mut bob) = pair();
    let m0 = alice.encrypt(b"zero").unwrap();
    assert_eq!(bob.decrypt(&m0).unwrap(), b"zero");
    assert_eq!(bob.receiving_counter(), 1);
    let mut far = alice.encrypt(b"far").unwrap();
    far.header.message_counter = 1 + MAX_SKIP + 1;
    assert_eq!(bob.decrypt(&far), Err(SignalError::TooManySkippedMessages));
    assert_eq!(bob.receiving_counter(), 1);
    assert_eq!(bob.skipped_key_count(), 0);
    let mut edge = RatchetMessage { header: MessageHeader { ..far.header }, ciphertext: far.ciphertext.clone() };
    edge.header.message_counter = 1 + MAX_SKIP;
    assert_eq!(bob.decrypt(&edge), Err(SignalError::DecryptionFailure));
    assert_eq!(bob.receiving_counter(), 1);
    assert_eq!(bob.skipped_key_count(), 0);
}

#[test]
fn failed_decryption_leaves_state() {
    let (mut alice, mut bob) = pair();
    let mut m = alice.encrypt(b"hello").unwrap();
    m.ciphertext[0] ^= 0xff;
    assert_eq!(bob.decrypt(&m), Err(SignalError::DecryptionFailure));
    assert_eq!(bob.receiving_counter(), 0);
    m.ciphertext[0] ^= 0xff;
    assert_eq!(bob.decrypt(&m).unwrap(), b"hello");
    assert_eq!(bob.decrypt(&m), Err(SignalError::DecryptionFailure));
}

#[test]
fn responder_cannot_send_first() {
    let (_alice, mut bob) = pair();
    assert!(matches!(bob.encrypt(b"x"), Err(SignalError::NoSendingChain)));
}

#[test]
fn counters_follow_messages() {
    let (mut alice, _bob) = pair();
    let m0 = alice.encrypt(b"a").unwrap();
    let m1 = alice.encrypt(b"b").unwrap();
    assert_eq!(m0.header.message_counter, 0);
    assert_eq!(m1.header.message_counter, 1);
    assert_eq!(m0.header.dh_ratchet_key, alice.our_ratchet_key());
    assert_eq!(alice.sending_counter(), 2);
    assert_eq!(alice.previous_counter(), 0);
}

#[test]
fn header_and_message_wire_format() {
    let header = MessageHeader { dh_ratchet_key: [5u8; 32], previous_counter: 3, message_counter: 0x01020304 };
    let h = header.serialize();
    assert_eq!(h.len(), 40);
    assert_eq!(&h[36..40], &[1, 2, 3, 4]);
    let message = RatchetMessage { header, ciphertext: vec![1, 2, 3] };
    let data = message.serialize();
    assert_eq!(&data[0..4], &40u32.to_be_bytes());
    assert_eq!(data.len(), 47);
    let back = RatchetMessage::deserialize(&data).unwrap();
    assert_eq!(back.header.dh_ratchet_key, [5u8; 32]);
    assert_eq!(back.header.previous_counter, 3);
    assert_eq!(back.header.message_counter, 0x01020304);
    assert_eq!(back.ciphertext, vec![1, 2, 3]);
    assert_eq!(RatchetMessage::deserialize(&data[..43]).err(), Some(SignalError::MalformedMessage));
    assert_eq!(RatchetMessage::deserialize(&[0, 0, 0, 39]).err(), Some(SignalError::MalformedMessage));
    assert_eq!(MessageHeader::deserialize(&h[..39]).err(), Some(SignalError::MalformedMessage));
}

#[test]
fn cleanup_keeps_fresh_keys() {
    let (mut alice, mut bob) = pair();
    let _m0 = alice.encrypt(b"zero").unwrap();
    let m1 = alice.encrypt(b"one").unwrap();
    assert_eq!(bob.decrypt(&m1).unwrap(), b"one");
    assert_eq!(bob.skipped_key_count(), 1);
    bob.cleanup_skipped_keys(3600);
    assert_eq!(bob.skipped_key_count(), 1);
    bob.retain_fresh_skipped_keys(i64::MAX, 10);
    assert_eq!(bob.skipped_key_count(), 0);
}

#[test]
fn test_session_serialization() {
    let shared_secret = [0x42u8; 32];
    let bob_ratchet = DhKeyPair::generate();
    let alice_ratchet = DhKeyPair::generate();
    let session = SessionState::initialize_alice(&shared_secret, alice_ratchet, &bob_ratchet.public_key()).unwrap();
    let serialized = session.serialize();
    let deserialized = SessionState::deserialize(&serialized).unwrap();
    assert_eq!(session.sending_counter(), deserialized.sending_counter());
}

#[test]
fn stored_session_keeps_working() {
    let (mut alice, mut bob) = pair();
    let m0 = alice.encrypt(b"zero").unwrap();
    let m1 = alice.encrypt(b"one").unwrap();
    let m2 = alice.encrypt(b"two").unwrap();
    assert_eq!(bob.decrypt(&m0).unwrap(), b"zero");
    assert_eq!(bob.decrypt(&m2).unwrap(), b"two");
    let stored = bob.serialize();
    assert_eq!(stored.len(), 32 + 33 + 32 + 33 + 33 + 12 + 8 + 124);
    let mut restored = SessionState::deserialize(&stored).unwrap();
    assert_eq!(restored.serialize(), stored);
    assert_eq!(restored.our_ratchet_key(), bob.our_ratchet_key());
    assert_eq!(restored.receiving_counter(), 3);
    assert_eq!(restored.skipped_key_count(), 1);
    assert_eq!(restored.decrypt(&m1).unwrap(), b"one");
    let reply = restored.encrypt(b"back").unwrap();
    assert_eq!(alice.decrypt(&reply).unwrap(), b"back");
}

#[test]
fn corrupted_session_blob_is_refused() {
    let (alice, _bob) = pair();
    let stored = alice.serialize();
    assert_eq!(SessionState::deserialize(&stored[..stored.len() - 1]).err(), Some(SignalError::MalformedMessage));
    let mut longer = stored.clone();
    longer.push(0);
    assert_eq!(SessionState::deserialize(&longer).err(), Some(SignalError::MalformedMessage));
    let mut bad_flag = stored.clone();
    bad_flag[32] = 7;
    assert_eq!(SessionState::deserialize(&bad_flag).err(), Some(SignalError::MalformedMessage));
    assert!(SessionState::deserialize(&[]).is_err());
}

#[test]
fn replayed_messages_are_refused() {
    let (mut alice, mut bob) = pair();
    let m0 = alice.encrypt(b"zero").unwrap();
    let m1 = alice.encrypt(b"one").unwrap();
    let m2 = alice.encrypt(b"two").unwrap();
    assert_eq!(bob.decrypt(&m0).unwrap(), b"zero");
    assert_eq!(bob.decrypt(&m0), Err(SignalError::DecryptionFailure));
    assert_eq!(bob.decrypt(&m2).unwrap(), b"two");
    assert_eq!(bob.decrypt(&m1).unwrap(), b"one");
    assert_eq!(bob.decrypt(&m1), Err(SignalError::DecryptionFailure));
    assert_eq!(bob.decrypt(&m2), Err(SignalError::DecryptionFailure));
    assert_eq!(bob.receiving_counter(), 3);
    assert_eq!(bob.skipped_key_count(), 0);
}

#[test]
fn stored_session_with_duplicate_slot_is_refused() {
    let (mut alice, mut bob) = pair();
    let m0 = alice.encrypt(b"zero").unwrap();
    let _m1 = alice.encrypt(b"one").unwrap();
    let m2 = alice.encrypt(b"two").unwrap();
    assert_eq!(bob.decrypt(&m0).unwrap(), b"zero");
    let _m3 = alice.encrypt(b"three").unwrap();
    let m4 = alice.encrypt(b"four").unwrap();
    assert_eq!(bob.decrypt(&m2).unwrap(), b"two");
    assert_eq!(bob.decrypt(&m4).unwrap(), b"four");
    assert_eq!(bob.skipped_key_count(), 2);
    let stored = bob.serialize();
    assert!(SessionState::deserialize(&stored).is_ok());
    let n = stored.len();
    let mut duplicated = stored.clone();
    let first = stored[n - 248..n - 124].to_vec();
    duplicated[n - 124..].copy_from_slice(&first);
    assert_eq!(SessionState::deserialize(&duplicated).err(), Some(SignalError::MalformedMessage));
}
