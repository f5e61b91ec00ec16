use signal_engine::{ProtocolAddress, SignalError, SignalProtocol};

#[test]
fn test_session_establishment() {
    let mut alice = SignalProtocol::new().unwrap();
    let mut bob = SignalProtocol::new().unwrap();
    bob.generate_pre_keys(10).unwrap();
    bob.generate_signed_pre_key(1).unwrap();
    let bob_bundle = bob.create_pre_key_bundle(1).unwrap();
    let bob_address = ProtocolAddress::new("bob", 1);
    alice.process_pre_key_bundle(&bob_address, &bob_bundle).unwrap();
    let plaintext = b"Hello, Bob!";
    let ciphertext = alice.encrypt_initial(&bob_address, &bob_bundle, plaintext).unwrap();
    let alice_address = ProtocolAddress::new("alice", 1);
    let decrypted = bob.decrypt_initial(&alice_address, &ciphertext).unwrap();
    assert_eq!(plaintext.as_slice(), decrypted.as_slice());
}

#[test]
fn test_bidirectional_messaging() {
    let mut alice = SignalProtocol::new().unwrap();
    let mut bob = SignalProtocol::new().unwrap();
    alice.generate_pre_keys(10).unwrap();
    alice.generate_signed_pre_key(1).unwrap();
    bob.generate_pre_keys(10).unwrap();
    bob.generate_signed_pre_key(1).unwrap();
    let alice_bundle = alice.create_pre_key_bundle(1).unwrap();
    let bob_bundle = bob.create_pre_key_bundle(1).unwrap();
    let alice_address = ProtocolAddress::new("alice", 1);
    let bob_address = ProtocolAddress::new("bob", 1);
    let msg1 = alice.encrypt_initial(&bob_address, &bob_bundle, b"Hello Bob!").unwrap();
    let decrypted1 = bob.decrypt_initial(&alice_address, &msg1).unwrap();
    assert_eq!(b"Hello Bob!", decrypted1.as_slice());
    let msg2 = bob.encrypt_initial(&alice_address, &alice_bundle, b"Hi Alice!").unwrap();
    let decrypted2 = alice.decrypt_initial(&bob_address, &msg2).unwrap();
    assert_eq!(b"Hi Alice!", decrypted2.as_slice());
    let msg3 = alice.encrypt(&bob_address, b"How are you?").unwrap();
    let decrypted3 = bob.decrypt(&alice_address, &msg3).unwrap();
    assert_eq!(b"How are you?", decrypted3.as_slice());
}

fn endpoint() -> SignalProtocol {
    let mut p = SignalProtocol::new().unwrap();
    p.generate_pre_keys(10).unwrap();
    p.generate_signed_pre_key(1).unwrap();
    p
}

#[test]
fn hello_bob_then_how_are_you() {
    let mut alice = endpoint();
    let mut bob = endpoint();
    let alice_address = ProtocolAddress::new("alice", 1);
    let bob_address = ProtocolAddress::new("bob", 1);
    let bundle = bob.create_pre_key_bundle(1).unwrap();
    let first = alice.encrypt_initial(&bob_address, &bundle, b"Hello Bob!").unwrap();
    assert_eq!(bob.decrypt_initial(&alice_address, &first).unwrap(), b"Hello Bob!");
    let second = alice.encrypt(&bob_address, b"How are you?").unwrap();
    assert_eq!(bob.decrypt(&alice_address, &second).unwrap(), b"How are you?");
    let reply = bob.encrypt(&alice_address, b"Fine.").unwrap();
    assert_eq!(alice.decrypt(&bob_address, &reply).unwrap(), b"Fine.");
    assert!(bob.has_session(&alice_address));
    assert!(!bob.has_session(&ProtocolAddress::new("alice", 2)));
}

#[test]
fn one_time_pre_key_is_consumed_once() {
    let mut alice = endpoint();
    let mut bob = endpoint();
    let bob_address = ProtocolAddress::new("bob", 1);
    let alice_address = ProtocolAddress::new("alice", 1);
    let bundle = bob.create_pre_key_bundle(1).unwrap();
    let used = bundle.pre_key_id.unwrap();
    assert_eq!(bob.pre_key_count(), 10);
    let first = alice.encrypt_initial(&bob_address, &bundle, b"one").unwrap();
    let replay = alice.encrypt_initial(&bob_address, &bundle, b"two").unwrap();
    assert_eq!(bob.decrypt_initial(&alice_address, &first).unwrap(), b"one");
    assert_eq!(bob.pre_key_count(), 9);
    let next_bundle = bob.create_pre_key_bundle(1).unwrap();
    assert_ne!(next_bundle.pre_key_id, Some(used));
    assert_eq!(bob.decrypt_initial(&alice_address, &replay), Err(SignalError::UnknownPreKey));
    assert_eq!(bob.decrypt_initial(&alice_address, &first), Err(SignalError::UnknownPreKey));
}

#[test]
fn engine_errors() {
    let mut alice = endpoint();
    let mut bob = SignalProtocol::new().unwrap();
    let nobody = ProtocolAddress::new("nobody", 1);
    assert_eq!(alice.encrypt(&nobody, b"x"), Err(SignalError::UnknownSession));
    assert_eq!(alice.decrypt(&nobody, b"x"), Err(SignalError::UnknownSession));
    assert!(matches!(bob.create_pre_key_bundle(1), Err(SignalError::NoSignedPreKey)));
    assert_eq!(alice.get_safety_number("alice", "bob"), Err(SignalError::UntrustedIdentity));
    let bundle = alice.create_pre_key_bundle(1).unwrap();
    let alice_address = ProtocolAddress::new("alice", 1);
    let initial = bob.encrypt_initial(&alice_address, &bundle, b"hi").unwrap();
    let mut stranger = SignalProtocol::new().unwrap();
    assert_eq!(stranger.decrypt_initial(&nobody, &initial), Err(SignalError::NoSignedPreKey));
    stranger.generate_signed_pre_key(2).unwrap();
    assert_eq!(stranger.decrypt_initial(&nobody, &initial), Err(SignalError::UnknownSignedPreKey));
    assert_eq!(alice.decrypt_initial(&nobody, &initial[..50]), Err(SignalError::MalformedMessage));
    let mut bad = bundle.clone();
    bad.signed_pre_key_signature[0] ^= 1;
    assert_eq!(bob.process_pre_key_bundle(&alice_address, &bad), Err(SignalError::VerificationFailure));
    assert_eq!(bob.encrypt_initial(&alice_address, &bad, b"x"), Err(SignalError::VerificationFailure));
    let bob_address = ProtocolAddress::new("bob", 1);
    alice.decrypt_initial(&bob_address, &initial).unwrap();
    assert_eq!(alice.decrypt(&bob_address, &[0, 0, 0]), Err(SignalError::MalformedMessage));
}

#[test]
fn identity_trust_and_mismatch() {
    let mut alice = endpoint();
    let bob = endpoint();
    let eve = endpoint();
    let bob_address = ProtocolAddress::new("bob", 1);
    alice.trust_identity("bob", bob.identity_public_key());
    assert!(alice.is_identity_trusted("bob", &bob.identity_public_key()));
    assert!(!alice.is_identity_trusted("bob", &eve.identity_public_key()));
    let eve_bundle = eve.create_pre_key_bundle(1).unwrap();
    assert_eq!(alice.process_pre_key_bundle(&bob_address, &eve_bundle), Err(SignalError::IdentityMismatch));
    assert!(!alice.has_session(&bob_address));
    let bob_bundle = bob.create_pre_key_bundle(1).unwrap();
    alice.process_pre_key_bundle(&bob_address, &bob_bundle).unwrap();
    assert!(alice.has_session(&bob_address));
}

#[test]
fn safety_numbers_agree() {
    let mut alice = endpoint();
    let mut bob = endpoint();
    let alice_address = ProtocolAddress::new("alice", 1);
    let bob_address = ProtocolAddress::new("bob", 1);
    let bundle = bob.create_pre_key_bundle(1).unwrap();
    let first = alice.encrypt_initial(&bob_address, &bundle, b"hi").unwrap();
    bob.decrypt_initial(&alice_address, &first).unwrap();
    assert!(bob.is_identity_trusted("alice", &alice.identity_public_key()));
    alice.trust_identity("bob", bob.identity_public_key());
    let from_alice = alice.get_safety_number("alice", "bob").unwrap();
    let from_bob = bob.get_safety_number("bob", "alice").unwrap();
    assert_eq!(from_alice, from_bob);
}

#[test]
fn pre_key_ids_and_refill() {
    let mut p = SignalProtocol::new().unwrap();
    let keys = p.generate_pre_keys(3).unwrap();
    let ids: Vec<u32> = keys.iter().map(|k| k.0).collect();
    assert_eq!(ids, vec![1, 2, 3]);
    assert!(keys.iter().all(|k| k.1.len() == 32));
    assert_eq!(p.pre_key_count(), 3);
    let refill = p.refill_pre_keys_if_needed().unwrap().unwrap();
    assert_eq!(refill.len(), 100);
    assert_eq!(refill[0].0, 4);
    assert_eq!(p.pre_key_count(), 103);
    assert!(p.refill_pre_keys_if_needed().unwrap().is_none());
    assert!(p.registration_id() < 0x4000);
    let (public, private) = p.generate_identity_key_pair().unwrap();
    assert_eq!((public.len(), private.len()), (32, 32));
    let (spk_public, signature) = p.generate_signed_pre_key(5).unwrap();
    assert_eq!(p.get_signed_pre_key().unwrap().id, 5);
    assert!(p.identity_public_key().verify(&spk_public, signature.as_slice().try_into().unwrap()).is_ok());
}

#[test]
fn restored_identity_keeps_keys() {
    let p = SignalProtocol::new().unwrap();
    let q = SignalProtocol::from_identity(&p.identity_private_key(), 77).unwrap();
    assert_eq!(q.identity_public_key().as_bytes(), p.identity_public_key().as_bytes());
    assert_eq!(q.registration_id(), 77);
}

#[test]
fn address_text_form() {
    let a = ProtocolAddress::new("user.name", 42);
    assert_eq!(a.to_string(), "user.name.42");
    let back = ProtocolAddress::from_string("user.name.42").unwrap();
    assert_eq!(back.name, "user.name");
    assert_eq!(back.device_id, 42);
    assert_eq!(ProtocolAddress::from_string("nodot").err(), Some(SignalError::MalformedMessage));
    assert_eq!(ProtocolAddress::from_string("a.").err(), Some(SignalError::MalformedMessage));
    assert_eq!(ProtocolAddress::from_string("a.x1").err(), Some(SignalError::MalformedMessage));
    assert_eq!(ProtocolAddress::from_string("a.4294967296").err(), Some(SignalError::MalformedMessage));
    assert_eq!(ProtocolAddress::from_string("a.4294967295").unwrap().device_id, u32::MAX);
    assert_eq!(ProtocolAddress::from_string("a.+7").unwrap().device_id, 7);
    assert_eq!(ProtocolAddress::from_string(".0").unwrap().name, "");
}

#[test]
fn session_survives_store_and_restore() {
    let mut alice = endpoint();
    let mut bob = endpoint();
    let alice_address = ProtocolAddress::new("alice", 1);
    let bob_address = ProtocolAddress::new("bob", 1);
    let bundle = bob.create_pre_key_bundle(1).unwrap();
    let first = alice.encrypt_initial(&bob_address, &bundle, b"Hello Bob!").unwrap();
    bob.decrypt_initial(&alice_address, &first).unwrap();
    let blob = bob.get_session(&alice_address).unwrap();
    assert!(bob.get_session(&bob_address).is_none());
    let mut fresh = SignalProtocol::from_identity(&bob.identity_private_key(), bob.registration_id()).unwrap();
    fresh.restore_session(&alice_address, &blob).unwrap();
    let next = alice.encrypt(&bob_address, b"again").unwrap();
    assert_eq!(fresh.decrypt(&alice_address, &next).unwrap(), b"again");
    assert_eq!(fresh.restore_session(&alice_address, &blob[..10]), Err(SignalError::MalformedMessage));
}
