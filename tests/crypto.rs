use sha2::{Digest, Sha256};
use signal_engine::fingerprint::FINGERPRINT_ROUNDS;
use signal_engine::{
    calculate_fingerprint, DhKeyPair, IdentityKeyPair, IdentityPublicKey, PreKey, PreKeyBundle,
    SignalCipher, SignalError, SignalHkdf, SignedPreKey,
};

const NONCE_SIZE: usize = 12;

#[test]
fn test_identity_key_generation() {
    let key_pair = IdentityKeyPair::generate();
    let public_key = key_pair.public_key();
    let message = b"test message";
    let signature = key_pair.sign(message);
    assert!(public_key.verify(message, &signature).is_ok());
}

#[test]
fn test_dh_key_exchange() {
    let alice = DhKeyPair::generate();
    let bob = DhKeyPair::generate();
    let alice_shared = alice.dh_agreement(&bob.public_key());
    let bob_shared = bob.dh_agreement(&alice.public_key());
    assert_eq!(alice_shared, bob_shared);
}

#[test]
fn test_encryption_decryption() {
    let key = [0u8; 32];
    let nonce = [0u8; NONCE_SIZE];
    let plaintext = b"Hello, Signal!";
    let ciphertext = SignalCipher::encrypt(&key, &nonce, plaintext).unwrap();
    let decrypted = SignalCipher::decrypt(&key, &nonce, &ciphertext).unwrap();
    assert_eq!(plaintext.as_slice(), decrypted.as_slice());
}

#[test]
fn test_pre_key_serialization() {
    let pre_key = PreKey::generate(42);
    let serialized = pre_key.serialize();
    let deserialized = PreKey::deserialize(&serialized).unwrap();
    assert_eq!(pre_key.id, deserialized.id);
}

#[test]
fn ciphertext_carries_a_tag_and_differs_from_plaintext() {
    let key = [7u8; 32];
    let nonce = [1u8; NONCE_SIZE];
    let plaintext = b"attack at dawn";
    let ciphertext = SignalCipher::encrypt(&key, &nonce, plaintext).unwrap();
    assert_eq!(ciphertext.len(), plaintext.len() + 16);
    assert_ne!(&ciphertext[..plaintext.len()], plaintext.as_slice());
}

#[test]
fn tampered_ciphertext_is_rejected() {
    let key = [9u8; 32];
    let nonce = [2u8; NONCE_SIZE];
    let mut ciphertext = SignalCipher::encrypt(&key, &nonce, b"payload").unwrap();
    ciphertext[0] ^= 1;
    assert_eq!(SignalCipher::decrypt(&key, &nonce, &ciphertext), Err(SignalError::DecryptionFailure));
    let other_key = [8u8; 32];
    let good = SignalCipher::encrypt(&key, &nonce, b"payload").unwrap();
    assert_eq!(SignalCipher::decrypt(&other_key, &nonce, &good), Err(SignalError::DecryptionFailure));
    assert_eq!(SignalCipher::decrypt(&key, &nonce, &[1, 2, 3]), Err(SignalError::DecryptionFailure));
}

#[test]
fn hkdf_matches_rfc5869_case_one() {
    let ikm = [0x0bu8; 22];
    let salt: Vec<u8> = (0u8..=0x0c).collect();
    let info: Vec<u8> = (0xf0u8..=0xf9).collect();
    let okm = SignalHkdf::derive_secrets(&ikm, &salt, &info, 42).unwrap();
    let expected = [
        0x3c, 0xb2, 0x5f, 0x25, 0xfa, 0xac, 0xd5, 0x7a, 0x90, 0x43, 0x4f, 0x64, 0xd0, 0x36, 0x2f,
        0x2a, 0x2d, 0x2d, 0x0a, 0x90, 0xcf, 0x1a, 0x5a, 0x4c, 0x5d, 0xb0, 0x2d, 0x56, 0xec, 0xc4,
        0xc5, 0xbf, 0x34, 0x00, 0x72, 0x08, 0xd5, 0xb8, 0x87, 0x18, 0x58, 0x65,
    ];
    assert_eq!(okm.as_slice(), expected.as_slice());
}

#[test]
fn hkdf_refuses_too_long_output() {
    assert_eq!(
        SignalHkdf::derive_secrets(b"k", b"s", b"i", 8161),
        Err(SignalError::KeyDerivationFailure)
    );
    assert_eq!(SignalHkdf::derive_secrets(b"k", b"s", b"i", 8160).unwrap().len(), 8160);
}

#[test]
fn root_key_step_splits_hkdf_output() {
    let root = [1u8; 32];
    let dh = [2u8; 32];
    let (new_root, chain) = SignalHkdf::derive_root_key(&root, &dh).unwrap();
    let full = SignalHkdf::derive_secrets(&dh, &root, b"WhisperRatchet", 64).unwrap();
    assert_eq!(new_root.as_slice(), &full[..32]);
    assert_eq!(chain.as_slice(), &full[32..]);
    assert_ne!(new_root, root);
}

#[test]
fn successive_message_keys_differ() {
    let chain = [0x42u8; 32];
    let first = SignalHkdf::derive_message_keys(&chain).unwrap();
    let second = SignalHkdf::derive_message_keys(&first.next_chain_key).unwrap();
    assert_ne!(first.cipher_key, second.cipher_key);
    assert_ne!(first.next_chain_key, second.next_chain_key);
    assert_ne!(first.next_chain_key, chain);
    let again = SignalHkdf::derive_message_keys(&chain).unwrap();
    assert_eq!(first.cipher_key, again.cipher_key);
    assert_eq!(first.iv, again.iv);
}

#[test]
fn signed_pre_key_round_trip() {
    let identity = IdentityKeyPair::generate();
    let spk = SignedPreKey::generate(7, &identity);
    let data = spk.serialize();
    assert_eq!(data.len(), 140);
    let back = SignedPreKey::deserialize(&data).unwrap();
    assert_eq!(back.id, 7);
    assert_eq!(back.signature, spk.signature);
    assert_eq!(back.timestamp, spk.timestamp);
    assert_eq!(back.key_pair.public_key(), spk.key_pair.public_key());
    assert!(identity.public_key().verify(&back.key_pair.public_key(), &back.signature).is_ok());
    assert!(SignedPreKey::deserialize(&data[..139]).is_err());
    assert!(PreKey::deserialize(&[0u8; 35]).is_err());
}

#[test]
fn identity_from_private_key_is_deterministic() {
    let a = IdentityKeyPair::generate();
    let b = IdentityKeyPair::from_private_key(&a.private_key_bytes()).unwrap();
    assert_eq!(a.public_key().as_bytes(), b.public_key().as_bytes());
    assert_eq!(a.dh_public_key(), b.dh_public_key());
    let peer = DhKeyPair::generate();
    assert_eq!(a.dh_agreement(&peer.public_key()), peer.dh_agreement(&a.dh_public_key()));
}

#[test]
fn invalid_identity_bytes_are_refused() {
    let mut bytes = [0u8; 32];
    bytes[0] = 2;
    bytes[31] = 0x80;
    let mut found_invalid = false;
    for b in 0u8..=255 {
        bytes[1] = b;
        if IdentityPublicKey::from_bytes(&bytes).is_err() {
            assert_eq!(IdentityPublicKey::from_bytes(&bytes).err(), Some(SignalError::InvalidKey));
            found_invalid = true;
        }
    }
    assert!(found_invalid);
}

fn make_bundle(identity: &IdentityKeyPair, spk: &SignedPreKey, opk: &PreKey) -> PreKeyBundle {
    PreKeyBundle {
        registration_id: 12345,
        device_id: 1,
        pre_key_id: Some(opk.id),
        pre_key_public: Some(opk.key_pair.public_key()),
        signed_pre_key_id: spk.id,
        signed_pre_key_public: spk.key_pair.public_key(),
        signed_pre_key_signature: spk.signature,
        identity_key: identity.public_key(),
    }
}

#[test]
fn bundle_verifies_and_every_bit_flip_fails() {
    let identity = IdentityKeyPair::generate();
    let spk = SignedPreKey::generate(3, &identity);
    let opk = PreKey::generate(5);
    let bundle = make_bundle(&identity, &spk, &opk);
    assert!(bundle.verify().is_ok());
    for byte in 0..32 {
        for bit in 0..8 {
            let mut tampered = bundle.clone();
            tampered.signed_pre_key_public[byte] ^= 1 << bit;
            assert_eq!(tampered.verify(), Err(SignalError::VerificationFailure));
        }
    }
}

#[test]
fn bundle_round_trip_and_truncation() {
    let identity = IdentityKeyPair::generate();
    let spk = SignedPreKey::generate(3, &identity);
    let opk = PreKey::generate(5);
    let bundle = make_bundle(&identity, &spk, &opk);
    let data = bundle.serialize();
    assert_eq!(data.len(), 177);
    assert_eq!(&data[0..4], &12345u32.to_be_bytes());
    let back = PreKeyBundle::deserialize(&data).unwrap();
    assert_eq!(back.registration_id, 12345);
    assert_eq!(back.device_id, 1);
    assert_eq!(back.pre_key_id, Some(5));
    assert_eq!(back.pre_key_public, bundle.pre_key_public);
    assert_eq!(back.signed_pre_key_id, 3);
    assert_eq!(back.signed_pre_key_public, bundle.signed_pre_key_public);
    assert_eq!(back.signed_pre_key_signature, bundle.signed_pre_key_signature);
    assert_eq!(back.identity_key.as_bytes(), bundle.identity_key.as_bytes());
    assert!(back.verify().is_ok());
    assert_eq!(PreKeyBundle::deserialize(&data[..176]).err(), Some(SignalError::MalformedMessage));
    assert_eq!(PreKeyBundle::deserialize(&data[..8]).err(), Some(SignalError::MalformedMessage));

    let mut without = bundle.clone();
    without.pre_key_id = None;
    without.pre_key_public = None;
    let short = without.serialize();
    assert_eq!(short.len(), 141);
    let back = PreKeyBundle::deserialize(&short).unwrap();
    assert_eq!(back.pre_key_id, None);
    assert_eq!(back.pre_key_public, None);
}

#[test]
fn fingerprint_is_symmetric_and_formatted() {
    let a = IdentityKeyPair::generate().public_key();
    let b = IdentityKeyPair::generate().public_key();
    let ab = calculate_fingerprint(&a, "alice", &b, "bob");
    let ba = calculate_fingerprint(&b, "bob", &a, "alice");
    assert_eq!(ab, ba);
    let groups: Vec<&str> = ab.split(' ').collect();
    assert_eq!(groups.len(), 12);
    assert!(groups.iter().all(|g| g.len() == 5 && g.chars().all(|c| c.is_ascii_digit())));
    let c = IdentityKeyPair::generate().public_key();
    assert_ne!(ab, calculate_fingerprint(&a, "alice", &c, "bob"));
}

#[test]
fn fingerprint_matches_its_definition() {
    let a = IdentityKeyPair::from_private_key(&[1u8; 32]).unwrap().public_key();
    let b = IdentityKeyPair::from_private_key(&[2u8; 32]).unwrap().public_key();
    let (ka, kb) = (a.as_bytes(), b.as_bytes());
    let mut h = Sha256::new();
    h.update(b"alice");
    h.update(ka);
    h.update(b"bob");
    h.update(kb);
    let mut hash = h.finalize();
    for _ in 0..FINGERPRINT_ROUNDS {
        let mut h = Sha256::new();
        h.update(hash);
        h.update(ka);
        h.update(kb);
        hash = h.finalize();
    }
    let mut expected = String::new();
    for i in 0..12 {
        let o = i * 5 % 30;
        let mut v: u64 = 0;
        for j in 0..5 {
            v = v * 256 + hash[o + j] as u64;
        }
        if i > 0 {
            expected.push(' ');
        }
        expected.push_str(&format!("{:05}", v % 100000));
    }
    assert_eq!(calculate_fingerprint(&b, "bob", &a, "alice"), expected);
}
