use signal_engine::x3dh::X3DH_VERSION;
use signal_engine::{
    x3dh_initiate, x3dh_respond, DhKeyPair, IdentityKeyPair, IdentityPublicKey, InitialMessage, PreKey, PreKeyBundle,
    SignalError, SignedPreKey,
};

fn bundle_for(identity: &IdentityKeyPair, spk: &SignedPreKey, opk: Option<&PreKey>) -> PreKeyBundle {
    PreKeyBundle {
        registration_id: 12345,
        device_id: 1,
        pre_key_id: opk.map(|k| k.id),
        pre_key_public: opk.map(|k| k.key_pair.public_key()),
        signed_pre_key_id: spk.id,
        signed_pre_key_public: spk.key_pair.public_key(),
        signed_pre_key_signature: spk.signature,
        identity_key: identity.public_key(),
    }
}

#[test]
fn test_x3dh_key_agreement() {
    let alice_identity = IdentityKeyPair::generate();
    let bob_identity = IdentityKeyPair::generate();
    let bob_signed_pre_key = SignedPreKey::generate(1, &bob_identity);
    let bob_one_time_pre_key = PreKey::generate(1);
    let bob_bundle = PreKeyBundle {
        registration_id: 12345,
        device_id: 1,
        pre_key_id: Some(bob_one_time_pre_key.id),
        pre_key_public: Some(bob_one_time_pre_key.key_pair.public_key()),
        signed_pre_key_id: bob_signed_pre_key.id,
        signed_pre_key_public: bob_signed_pre_key.key_pair.public_key(),
        signed_pre_key_signature: bob_signed_pre_key.signature,
        identity_key: bob_identity.public_key(),
    };
    let alice_result = x3dh_initiate(&alice_identity, &bob_bundle).unwrap();
    let bob_result = x3dh_respond(
        &bob_identity,
        &bob_signed_pre_key.key_pair,
        Some(&bob_one_time_pre_key.key_pair),
        &alice_identity.public_key(),
        &alice_result.ephemeral_public_key,
    )
    .unwrap();
    assert_eq!(alice_result.shared_secret, bob_result);
}

#[test]
fn test_initial_message_serialization() {
    let identity = IdentityKeyPair::generate();
    let ephemeral = DhKeyPair::generate();
    let message = InitialMessage::new(
        identity.public_key(),
        ephemeral.public_key(),
        Some(42),
        1,
        b"Hello, World!".to_vec(),
    );
    let serialized = message.serialize();
    let deserialized = InitialMessage::deserialize(&serialized).unwrap();
    assert_eq!(message.pre_key_id, deserialized.pre_key_id);
    assert_eq!(message.signed_pre_key_id, deserialized.signed_pre_key_id);
    assert_eq!(message.encrypted_message, deserialized.encrypted_message);
}

#[test]
fn agreement_without_one_time_pre_key() {
    let alice = IdentityKeyPair::generate();
    let bob = IdentityKeyPair::generate();
    let spk = SignedPreKey::generate(9, &bob);
    let bundle = bundle_for(&bob, &spk, None);
    let result = x3dh_initiate(&alice, &bundle).unwrap();
    assert_eq!(result.used_pre_key_id, None);
    let secret = x3dh_respond(&bob, &spk.key_pair, None, &alice.public_key(), &result.ephemeral_public_key)
        .unwrap();
    assert_eq!(result.shared_secret, secret);
    let with_opk = PreKey::generate(4);
    let wrong =
        x3dh_respond(&bob, &spk.key_pair, Some(&with_opk.key_pair), &alice.public_key(), &result.ephemeral_public_key)
            .unwrap();
    assert_ne!(result.shared_secret, wrong);
}

#[test]
fn initiate_reports_used_pre_key_and_refuses_bad_signature() {
    let alice = IdentityKeyPair::generate();
    let bob = IdentityKeyPair::generate();
    let spk = SignedPreKey::generate(2, &bob);
    let opk = PreKey::generate(77);
    let bundle = bundle_for(&bob, &spk, Some(&opk));
    assert_eq!(x3dh_initiate(&alice, &bundle).unwrap().used_pre_key_id, Some(77));
    let mut bad = bundle.clone();
    bad.signed_pre_key_signature[10] ^= 0x40;
    assert_eq!(x3dh_initiate(&alice, &bad).err(), Some(SignalError::VerificationFailure));
}

#[test]
fn initial_message_layout_and_errors() {
    let identity = IdentityKeyPair::generate();
    let ephemeral = DhKeyPair::generate();
    let message = InitialMessage::new(identity.public_key(), ephemeral.public_key(), None, 5, vec![9, 8, 7]);
    let data = message.serialize();
    assert_eq!(data[0], X3DH_VERSION);
    assert_eq!(&data[1..33], identity.public_key().as_bytes().as_slice());
    assert_eq!(data[65], 0);
    assert_eq!(&data[66..70], &5u32.to_be_bytes());
    assert_eq!(&data[70..74], &3u32.to_be_bytes());
    assert_eq!(&data[74..], &[9, 8, 7]);
    let back = InitialMessage::deserialize(&data).unwrap();
    assert_eq!(back.pre_key_id, None);
    assert_eq!(back.ephemeral_key, ephemeral.public_key());
    assert_eq!(InitialMessage::deserialize(&data[..76]).err(), Some(SignalError::MalformedMessage));
    assert_eq!(InitialMessage::deserialize(&data[..60]).err(), Some(SignalError::MalformedMessage));
    let mut other_version = data.clone();
    other_version[0] = 2;
    assert_eq!(InitialMessage::deserialize(&other_version).err(), Some(SignalError::MalformedMessage));
}

#[test]
fn incomplete_initial_message_is_malformed_before_key_check() {
    let identity = IdentityKeyPair::generate();
    let ephemeral = DhKeyPair::generate();
    let message = InitialMessage::new(identity.public_key(), ephemeral.public_key(), None, 5, vec![1, 2, 3]);
    let mut data = message.serialize();
    let mut invalid = [0u8; 32];
    invalid[0] = 2;
    invalid[31] = 0x80;
    let mut found = false;
    for b in 0u8..=255 {
        invalid[1] = b;
        if IdentityPublicKey::from_bytes(&invalid).is_err() {
            found = true;
            break;
        }
    }
    assert!(found);
    data[1..33].copy_from_slice(&invalid);
    assert_eq!(InitialMessage::deserialize(&data).err(), Some(SignalError::InvalidKey));
    assert_eq!(InitialMessage::deserialize(&data[..72]).err(), Some(SignalError::MalformedMessage));
    let mut other_version = data.clone();
    other_version[0] = 4;
    assert_eq!(InitialMessage::deserialize(&other_version).err(), Some(SignalError::MalformedMessage));
}
