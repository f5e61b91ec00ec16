//! Identity keys, Diffie-Hellman key pairs and pre-keys.
use vstd::prelude::*;

use crate::bytes::{be32, be64, copy_32, copy_64, get_be32, get_be64, push_be32, push_be64, push_bytes, read_be32, read_be64};
use crate::error::SignalError;
use crate::primitives::{
    ed25519_accepts, ed25519_key_ok, ed25519_key_valid, ed25519_public, ed25519_public_key, ed25519_sign,
    ed25519_signature, ed25519_verify, now_timestamp, random_bytes_32, sha512, sha512_of, x25519,
    x25519_agree, x25519_base, x25519_public_key, wipe,
};

verus! {

/// Size of symmetric keys in bytes.
pub const KEY_SIZE: usize = 32;

/// Size of the AEAD nonce in bytes.
pub const NONCE_SIZE: usize = 12;

/// Size of an Ed25519 signature in bytes.
pub const SIGNATURE_SIZE: usize = 64;

/// Clamps the first 32 bytes of `h` into an X25519 scalar.
pub open spec fn clamp_scalar(h: Seq<u8>) -> Seq<u8> {
    Seq::new(
        32,
        |i: int|
            if i == 0 {
                h[0] & 248u8
            } else if i == 31 {
                (h[31] & 127u8) | 64u8
            } else {
                h[i]
            },
    )
}

/// The Diffie-Hellman secret that belongs to an identity signing key: the
/// clamped first half of its SHA-512 digest, the scalar behind the Ed25519
/// public key.
pub open spec fn identity_dh_secret(signing_secret: Seq<u8>) -> Seq<u8> {
    clamp_scalar(sha512_of(signing_secret))
}

/// A long-term Ed25519 identity key pair.
pub struct IdentityKeyPair {
    secret: [u8; 32],
    public: [u8; 32],
}

impl Drop for IdentityKeyPair {
    /// The signing secret is wiped when the key pair goes away.
    fn drop(&mut self)
        opens_invariants none
        no_unwind
    {
        wipe(&mut self.secret);
    }
}

impl IdentityKeyPair {
    /// The 32-byte signing secret.
    pub closed spec fn signing_secret(&self) -> Seq<u8> {
        self.secret@
    }

    /// The 32-byte Ed25519 public key.
    pub closed spec fn verifying_bytes(&self) -> Seq<u8> {
        self.public@
    }

    pub open spec fn wf(&self) -> bool {
        &&& self.signing_secret().len() == 32
        &&& self.verifying_bytes() == ed25519_public(self.signing_secret())
        &&& ed25519_key_ok(self.verifying_bytes())
    }

    /// A fresh identity from the system's random generator.
    pub fn generate() -> (r: Self)
        ensures
            r.wf(),
    {
        let secret = random_bytes_32();
        Self::from_secret(secret)
    }

    fn from_secret(secret: [u8; 32]) -> (r: Self)
        ensures
            r.wf(),
            r.signing_secret() == secret@,
    {
        let public = ed25519_public_key(&secret);
        IdentityKeyPair { secret, public }
    }

    /// The identity whose signing secret is `bytes`.
    pub fn from_private_key(bytes: &[u8; 32]) -> (r: Result<Self, SignalError>)
        ensures
            r matches Ok(k) && k.wf() && k.signing_secret() == bytes@,
    {
        Ok(Self::from_secret(*bytes))
    }

    pub fn public_key(&self) -> (r: IdentityPublicKey)
        ensures
            r@ == self.verifying_bytes(),
    {
        IdentityPublicKey { key: self.public }
    }

    pub fn private_key_bytes(&self) -> (r: [u8; 32])
        ensures
            r@ == self.signing_secret(),
    {
        self.secret
    }

    pub fn sign(&self, message: &[u8]) -> (r: [u8; 64])
        ensures
            r@ == ed25519_signature(self.signing_secret(), message@),
            ed25519_accepts(ed25519_public(self.signing_secret()), message@, r@),
    {
        ed25519_sign(&self.secret, message)
    }

    fn dh_secret(&self) -> (r: [u8; 32])
        requires
            self.wf(),
        ensures
            r@ == identity_dh_secret(self.signing_secret()),
    {
        let hash = sha512(&self.secret);
        let mut s: [u8; 32] = copy_32(&hash, 0);
        s[0] = s[0] & 248u8;
        s[31] = (s[31] & 127u8) | 64u8;
        assert(s@ =~= clamp_scalar(sha512_of(self.secret@)));
        s
    }

    /// The X25519 public key of the identity's Diffie-Hellman secret.
    pub fn dh_public_key(&self) -> (r: [u8; 32])
        requires
            self.wf(),
        ensures
            r@ == x25519_base(identity_dh_secret(self.signing_secret())),
    {
        let s = self.dh_secret();
        x25519_public_key(&s)
    }

    /// Diffie-Hellman agreement between the identity and a peer's X25519 key.
    pub fn dh_agreement(&self, peer_public: &[u8; 32]) -> (r: [u8; 32])
        requires
            self.wf(),
        ensures
            r@ == x25519(identity_dh_secret(self.signing_secret()), peer_public@),
    {
        let s = self.dh_secret();
        x25519_agree(&s, peer_public)
    }
}

/// A public Ed25519 identity key, held as its 32-byte encoding.
#[derive(Clone, Copy, Debug)]
pub struct IdentityPublicKey {
    key: [u8; 32],
}

impl View for IdentityPublicKey {
    type V = Seq<u8>;

    closed spec fn view(&self) -> Seq<u8> {
        self.key@
    }
}

impl IdentityPublicKey {
    /// The encoding is 32 bytes long.
    pub proof fn lemma_len(&self)
        ensures
            self@.len() == 32,
    {
    }

    /// Accepts the bytes when they decode to an Ed25519 verifying key.
    pub fn from_bytes(bytes: &[u8; 32]) -> (r: Result<Self, SignalError>)
        ensures
            r is Ok <==> ed25519_key_ok(bytes@),
            r matches Ok(k) ==> k@ == bytes@,
            r matches Err(e) ==> e == SignalError::InvalidKey,
    {
        if ed25519_key_valid(bytes) {
            Ok(IdentityPublicKey { key: *bytes })
        } else {
            Err(SignalError::InvalidKey)
        }
    }

    pub fn as_bytes(&self) -> (r: [u8; 32])
        ensures
            r@ == self@,
    {
        self.key
    }

    /// Checks an Ed25519 signature over `message`.
    pub fn verify(&self, message: &[u8], signature: &[u8; 64]) -> (r: Result<(), SignalError>)
        ensures
            r is Ok <==> ed25519_accepts(self@, message@, signature@),
            r matches Err(e) ==> e == SignalError::VerificationFailure,
    {
        if ed25519_verify(&self.key, message, signature) {
            Ok(())
        } else {
            Err(SignalError::VerificationFailure)
        }
    }
}

/// An X25519 key pair for Diffie-Hellman agreement.
pub struct DhKeyPair {
    secret: [u8; 32],
    public: [u8; 32],
}

impl Clone for DhKeyPair {
    fn clone(&self) -> (r: Self)
        ensures
            r == *self,
    {
        DhKeyPair { secret: self.secret, public: self.public }
    }
}

impl Drop for DhKeyPair {
    /// The secret is wiped when the key pair goes away.
    fn drop(&mut self)
        opens_invariants none
        no_unwind
    {
        wipe(&mut self.secret);
    }
}

impl DhKeyPair {
    /// Both halves are 32 bytes long.
    pub proof fn lemma_len(&self)
        ensures
            self.secret_bytes().len() == 32,
            self.public_bytes().len() == 32,
    {
    }

    pub closed spec fn secret_bytes(&self) -> Seq<u8> {
        self.secret@
    }

    pub closed spec fn public_bytes(&self) -> Seq<u8> {
        self.public@
    }

    pub open spec fn wf(&self) -> bool {
        &&& self.secret_bytes().len() == 32
        &&& self.public_bytes() == x25519_base(self.secret_bytes())
        &&& forall|a: Seq<u8>|
            a.len() == 32 ==> #[trigger] x25519(a, self.public_bytes()) == x25519(
                self.secret_bytes(),
                x25519_base(a),
            )
    }

    /// A fresh key pair from the system's random generator.
    pub fn generate() -> (r: Self)
        ensures
            r.wf(),
    {
        Self::from_private_key(random_bytes_32())
    }

    pub fn from_private_key(bytes: [u8; 32]) -> (r: Self)
        ensures
            r.wf(),
            r.secret_bytes() == bytes@,
    {
        let public = x25519_public_key(&bytes);
        DhKeyPair { secret: bytes, public }
    }

    pub fn public_key(&self) -> (r: [u8; 32])
        ensures
            r@ == self.public_bytes(),
    {
        self.public
    }

    pub fn private_key_bytes(&self) -> (r: [u8; 32])
        ensures
            r@ == self.secret_bytes(),
    {
        self.secret
    }

    pub fn dh_agreement(&self, peer_public: &[u8; 32]) -> (r: [u8; 32])
        ensures
            r@ == x25519(self.secret_bytes(), peer_public@),
    {
        x25519_agree(&self.secret, peer_public)
    }
}

/// Stored form of a pre-key: id, private key, public key.
pub open spec fn pre_key_record(id: u32, secret: Seq<u8>, public: Seq<u8>) -> Seq<u8> {
    be32(id) + secret + public
}

/// A one-time pre-key.
#[derive(Clone)]
pub struct PreKey {
    pub id: u32,
    pub key_pair: DhKeyPair,
}

impl PreKey {
    pub fn generate(id: u32) -> (r: Self)
        ensures
            r.id == id,
            r.key_pair.wf(),
    {
        PreKey { id, key_pair: DhKeyPair::generate() }
    }

    pub fn from_stored(id: u32, private_key: [u8; 32]) -> (r: Self)
        ensures
            r.id == id,
            r.key_pair.wf(),
            r.key_pair.secret_bytes() == private_key@,
    {
        PreKey { id, key_pair: DhKeyPair::from_private_key(private_key) }
    }

    pub fn serialize(&self) -> (r: Vec<u8>)
        ensures
            r@ == pre_key_record(
                self.id,
                self.key_pair.secret_bytes(),
                self.key_pair.public_bytes(),
            ),
    {
        let mut data: Vec<u8> = Vec::new();
        push_be32(&mut data, self.id);
        push_bytes(&mut data, &self.key_pair.private_key_bytes());
        push_bytes(&mut data, &self.key_pair.public_key());
        data
    }

    /// Reads the id and the private key; the public key is recomputed.
    pub fn deserialize(data: &[u8]) -> (r: Result<Self, SignalError>)
        ensures
            r is Ok <==> data@.len() >= 36,
            r matches Ok(k) ==> {
                &&& k.id == read_be32(data@.subrange(0, 4))
                &&& k.key_pair.wf()
                &&& k.key_pair.secret_bytes() == data@.subrange(4, 36)
            },
            r matches Err(e) ==> e == SignalError::MalformedMessage,
    {
        if data.len() < 36 {
            return Err(SignalError::MalformedMessage);
        }
        let id = get_be32(data, 0);
        let private_key = copy_32(data, 4);
        Ok(Self::from_stored(id, private_key))
    }
}

/// Stored form of a signed pre-key.
pub open spec fn signed_pre_key_record(
    id: u32,
    secret: Seq<u8>,
    public: Seq<u8>,
    signature: Seq<u8>,
    timestamp: i64,
) -> Seq<u8> {
    be32(id) + secret + public + signature + be64(timestamp as u64)
}

/// A medium-lived pre-key whose public half is signed by the identity key.
pub struct SignedPreKey {
    pub id: u32,
    pub key_pair: DhKeyPair,
    pub signature: [u8; 64],
    pub timestamp: i64,
}

impl SignedPreKey {
    /// A fresh key pair, its public key signed by `identity_key`, stamped
    /// with the current time.
    pub fn generate(id: u32, identity_key: &IdentityKeyPair) -> (r: Self)
        ensures
            r.id == id,
            r.key_pair.wf(),
            r.signature@ == ed25519_signature(
                identity_key.signing_secret(),
                r.key_pair.public_bytes(),
            ),
            identity_key.wf() ==> ed25519_accepts(
                identity_key.verifying_bytes(),
                r.key_pair.public_bytes(),
                r.signature@,
            ),
    {
        let key_pair = DhKeyPair::generate();
        let timestamp = now_timestamp();
        let public = key_pair.public_key();
        let signature = identity_key.sign(&public);
        SignedPreKey { id, key_pair, signature, timestamp }
    }

    pub fn serialize(&self) -> (r: Vec<u8>)
        ensures
            r@ == signed_pre_key_record(
                self.id,
                self.key_pair.secret_bytes(),
                self.key_pair.public_bytes(),
                self.signature@,
                self.timestamp,
            ),
    {
        let mut data: Vec<u8> = Vec::new();
        push_be32(&mut data, self.id);
        push_bytes(&mut data, &self.key_pair.private_key_bytes());
        push_bytes(&mut data, &self.key_pair.public_key());
        push_bytes(&mut data, &self.signature);
        push_be64(&mut data, self.timestamp as u64);
        data
    }

    /// Reads the id, private key, signature and timestamp; the public key is
    /// recomputed from the private key.
    pub fn deserialize(data: &[u8]) -> (r: Result<Self, SignalError>)
        ensures
            r is Ok <==> data@.len() >= 140,
            r matches Ok(k) ==> {
                &&& k.id == read_be32(data@.subrange(0, 4))
                &&& k.key_pair.wf()
                &&& k.key_pair.secret_bytes() == data@.subrange(4, 36)
                &&& k.signature@ == data@.subrange(68, 132)
                &&& k.timestamp == read_be64(data@.subrange(132, 140)) as i64
            },
            r matches Err(e) ==> e == SignalError::MalformedMessage,
    {
        if data.len() < 140 {
            return Err(SignalError::MalformedMessage);
        }
        let id = get_be32(data, 0);
        let private_key = copy_32(data, 4);
        let signature = copy_64(data, 68);
        let timestamp = get_be64(data, 132) as i64;
        Ok(SignedPreKey { id, key_pair: DhKeyPair::from_private_key(private_key), signature, timestamp })
    }
}

} // verus!
