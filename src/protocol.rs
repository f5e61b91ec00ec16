//! The protocol engine: identity, pre-key pool, session registry and
//! trusted identities, orchestrating X3DH and the ratchet.
use vstd::prelude::*;

use crate::address::ProtocolAddress;
use crate::bundle::PreKeyBundle;
use crate::error::SignalError;
use crate::keyed::{
    has_key, lemma_seq_map_empty, lemma_seq_map_index, lemma_seq_map_push, lemma_seq_map_remove,
    lemma_seq_map_update, seq_map, unique_keys,
};
use crate::keys::{DhKeyPair, IdentityKeyPair, IdentityPublicKey, PreKey, SignedPreKey};
use crate::bytes::{eq_32, opt_bytes};
use crate::fingerprint::{calculate_fingerprint, fingerprint_of};
use crate::kdf::{new_chain_key, next_root_key};
use crate::primitives::{ed25519_accepts, ed25519_key_ok, ed25519_public, ed25519_signature, random_u32, x25519, x25519_base};
use crate::ratchet::{
    ratchet_message_bytes, ratchet_message_complete, ratchet_message_decodes_to, RatchetMessage,
    SessionState,
};
use crate::x3dh::{
    initial_complete, initial_decodes_to, initial_message_bytes, initiator_secret, responder_secret,
    x3dh_initiate, x3dh_respond, InitialMessage, X3DH_VERSION,
};
use vstd::string::StringSliceAdditionalSpecFns;

verus! {

/// Number of pre-keys generated by a refill.
pub const PRE_KEY_BATCH_SIZE: u32 = 100;

/// Pre-key ids wrap at this value.
pub const MAX_PRE_KEY_ID: u32 = 0x00FF_FFFF;

/// A refill happens when fewer pre-keys than this remain.
pub const PRE_KEY_LOW_WATER: usize = 10;

/// Longest plaintext of an initial message: the ratchet message around it
/// must fit the initial message's 4-byte length field.
pub const MAX_INITIAL_PLAINTEXT: usize = 0xFFFF_FFC3;

/// `s` is a new session with root secret `shared` whose first DH ratchet
/// step was taken against `their_ratchet`.
pub open spec fn initiator_session(s: SessionState, shared: Seq<u8>, their_ratchet: Seq<u8>) -> bool {
    let dh = x25519(s.ratchet_pair().secret_bytes(), their_ratchet);
    &&& s.wf()
    &&& s.remote() == Some(their_ratchet)
    &&& s.root() == next_root_key(shared, dh)
    &&& s.sending_chain() == Some(new_chain_key(shared, dh))
    &&& s.receiving_chain() is None
    &&& s.send_count() == 0 && s.receive_count() == 0 && s.previous_count() == 0
    &&& s.skipped().len() == 0
}

/// `s` is a new responder session with root secret `shared`.
pub open spec fn responder_session(s: SessionState, shared: Seq<u8>) -> bool {
    &&& s.wf()
    &&& s.remote() is None
    &&& s.root() == shared
    &&& s.sending_chain() is None
    &&& s.receiving_chain() is None
    &&& s.send_count() == 0 && s.receive_count() == 0 && s.previous_count() == 0
    &&& s.skipped().len() == 0
}

/// The shared secret an initiator with identity `identity` and ephemeral
/// secret `ephemeral` derives from `bundle`.
pub open spec fn bundle_secret(identity: IdentityKeyPair, ephemeral: Seq<u8>, bundle: PreKeyBundle) -> Seq<u8> {
    initiator_secret(
        identity.signing_secret(),
        ephemeral,
        bundle.identity_key@,
        bundle.signed_pre_key_public@,
        opt_bytes(bundle.pre_key_public),
    )
}

/// Whether the bytes are an initial message that `InitialMessage::deserialize` reads.
pub open spec fn initial_parses(d: Seq<u8>) -> bool {
    initial_complete(d) && d[0] == X3DH_VERSION && ed25519_key_ok(d.subrange(1, 33))
}

/// The id of the `i`-th pre-key of a batch that starts at `start`.
pub open spec fn pre_key_id_at(start: u32, i: int) -> u32 {
    ((start + i) % (MAX_PRE_KEY_ID as int)) as u32
}

struct SessionEntry {
    address: ProtocolAddress,
    session: SessionState,
}

struct TrustedIdentity {
    name: String,
    key: IdentityPublicKey,
}

/// The engine of one endpoint.
pub struct SignalProtocol {
    identity_key: IdentityKeyPair,
    registration_id: u32,
    pre_keys: Vec<PreKey>,
    next_pre_key_id: u32,
    signed_pre_key: Option<SignedPreKey>,
    sessions: Vec<SessionEntry>,
    trusted_identities: Vec<TrustedIdentity>,
}

impl SignalProtocol {
    pub closed spec fn identity(&self) -> IdentityKeyPair {
        self.identity_key
    }

    pub closed spec fn registration(&self) -> u32 {
        self.registration_id
    }

    pub closed spec fn next_pre_key(&self) -> u32 {
        self.next_pre_key_id
    }

    pub closed spec fn signed_key(&self) -> Option<SignedPreKey> {
        self.signed_pre_key
    }

    /// The pre-key pool as (id, key pair) pairs, in order.
    pub closed spec fn pool_pairs(&self) -> Seq<(u32, DhKeyPair)> {
        Seq::new(self.pre_keys@.len(), |i: int| (self.pre_keys@[i].id, self.pre_keys@[i].key_pair))
    }

    /// The sessions as (address, session) pairs.
    pub closed spec fn session_pairs(&self) -> Seq<((Seq<char>, u32), SessionState)> {
        Seq::new(self.sessions@.len(), |i: int| (self.sessions@[i].address@, self.sessions@[i].session))
    }

    /// The trusted identities as (name, key) pairs.
    pub closed spec fn trusted_pairs(&self) -> Seq<(Seq<char>, Seq<u8>)> {
        Seq::new(
            self.trusted_identities@.len(),
            |i: int| (self.trusted_identities@[i].name@, self.trusted_identities@[i].key@),
        )
    }

    /// One-time pre-keys by id.
    pub open spec fn pre_key_map(&self) -> Map<u32, DhKeyPair> {
        seq_map(self.pool_pairs())
    }

    /// Sessions by address.
    pub open spec fn session_map(&self) -> Map<(Seq<char>, u32), SessionState> {
        seq_map(self.session_pairs())
    }

    /// Trusted identity keys by peer name.
    pub open spec fn trusted_map(&self) -> Map<Seq<char>, Seq<u8>> {
        seq_map(self.trusted_pairs())
    }

    pub open spec fn wf(&self) -> bool {
        &&& self.identity().wf()
        &&& unique_keys(self.pool_pairs())
        &&& forall|i: int| 0 <= i < self.pool_pairs().len() ==> (#[trigger] self.pool_pairs()[i]).1.wf()
        &&& self.next_pre_key() < MAX_PRE_KEY_ID
        &&& self.signed_key() matches Some(k) ==> k.key_pair.wf() && ed25519_accepts(
            self.identity().verifying_bytes(),
            k.key_pair.public_bytes(),
            k.signature@,
        )
        &&& unique_keys(self.session_pairs())
        &&& forall|i: int|
            0 <= i < self.session_pairs().len() ==> (#[trigger] self.session_pairs()[i]).1.wf()
        &&& unique_keys(self.trusted_pairs())
    }

    /// The peer `name` is trusted under a key other than `key`.
    pub open spec fn identity_conflict(&self, name: Seq<char>, key: Seq<u8>) -> bool {
        self.trusted_map().contains_key(name) && self.trusted_map()[name] != key
    }

    fn with_identity(identity_key: IdentityKeyPair, registration_id: u32) -> (r: Self)
        requires
            identity_key.wf(),
        ensures
            r.wf(),
            r.identity() == identity_key,
            r.registration() == registration_id,
            r.next_pre_key() == 1,
            r.signed_key() is None,
            r.pre_key_map() == Map::<u32, DhKeyPair>::empty(),
            r.session_map() == Map::<(Seq<char>, u32), SessionState>::empty(),
            r.trusted_map() == Map::<Seq<char>, Seq<u8>>::empty(),
    {
        let r = SignalProtocol {
            identity_key,
            registration_id,
            pre_keys: Vec::new(),
            next_pre_key_id: 1,
            signed_pre_key: None,
            sessions: Vec::new(),
            trusted_identities: Vec::new(),
        };
        proof {
            lemma_seq_map_empty(r.pool_pairs());
            lemma_seq_map_empty(r.session_pairs());
            lemma_seq_map_empty(r.trusted_pairs());
        }
        r
    }

    /// A new endpoint with a fresh identity and a random 14-bit registration id.
    pub fn new() -> (r: Result<Self, SignalError>)
        ensures
            r matches Ok(p) && {
                &&& p.wf()
                &&& p.registration() < 0x4000
                &&& p.next_pre_key() == 1
                &&& p.signed_key() is None
                &&& p.pre_key_map() == Map::<u32, DhKeyPair>::empty()
                &&& p.session_map() == Map::<(Seq<char>, u32), SessionState>::empty()
                &&& p.trusted_map() == Map::<Seq<char>, Seq<u8>>::empty()
            },
    {
        let identity_key = IdentityKeyPair::generate();
        let random = random_u32();
        let registration_id = random & 0x3FFFu32;
        assert(registration_id < 0x4000) by (bit_vector)
            requires
                registration_id == random & 0x3FFFu32,
        ;
        Ok(Self::with_identity(identity_key, registration_id))
    }

    /// An endpoint with an existing identity secret.
    pub fn from_identity(private_key: &[u8; 32], registration_id: u32) -> (r: Result<Self, SignalError>)
        ensures
            r matches Ok(p) && {
                &&& p.wf()
                &&& p.identity().signing_secret() == private_key@
                &&& p.registration() == registration_id
                &&& p.next_pre_key() == 1
                &&& p.signed_key() is None
                &&& p.pre_key_map() == Map::<u32, DhKeyPair>::empty()
                &&& p.session_map() == Map::<(Seq<char>, u32), SessionState>::empty()
                &&& p.trusted_map() == Map::<Seq<char>, Seq<u8>>::empty()
            },
    {
        let identity_key = IdentityKeyPair::from_private_key(private_key)?;
        Ok(Self::with_identity(identity_key, registration_id))
    }

    pub fn identity_public_key(&self) -> (r: IdentityPublicKey)
        ensures
            r@ == self.identity().verifying_bytes(),
    {
        self.identity_key.public_key()
    }

    pub fn identity_private_key(&self) -> (r: [u8; 32])
        ensures
            r@ == self.identity().signing_secret(),
    {
        self.identity_key.private_key_bytes()
    }

    pub fn registration_id(&self) -> (r: u32)
        ensures
            r == self.registration(),
    {
        self.registration_id
    }

    /// A fresh identity key pair, unrelated to this endpoint's: (public, private).
    pub fn generate_identity_key_pair(&self) -> (r: Result<(Vec<u8>, Vec<u8>), SignalError>)
        ensures
            r matches Ok((public, private)) && private@.len() == 32 && public@ == ed25519_public(
                private@,
            ),
    {
        let key_pair = IdentityKeyPair::generate();
        let public = key_pair.public_key().as_bytes();
        let private = key_pair.private_key_bytes();
        let public_key = crate::bytes::copy_range(&public, 0, 32);
        let private_key = crate::bytes::copy_range(&private, 0, 32);
        assert(public_key@ =~= public@);
        assert(private_key@ =~= private@);
        Ok((public_key, private_key))
    }

    fn find_pre_key(&self, id: u32) -> (r: Option<usize>)
        ensures
            r matches Some(i) ==> i < self.pool_pairs().len() && self.pool_pairs()[i as int].0 == id,
            r is None ==> !has_key(self.pool_pairs(), id),
    {
        let mut i: usize = 0;
        while i < self.pre_keys.len()
            invariant
                i <= self.pre_keys@.len(),
                forall|j: int| 0 <= j < i ==> self.pool_pairs()[j].0 != id,
            decreases self.pre_keys@.len() - i,
        {
            if self.pre_keys[i].id == id {
                return Some(i);
            }
            i = i + 1;
        }
        None
    }

    /// Stores a pre-key, replacing one with the same id.
    fn store_pre_key(&mut self, key: PreKey)
        requires
            old(self).wf(),
            key.key_pair.wf(),
        ensures
            final(self).wf(),
            final(self).pre_key_map() == old(self).pre_key_map().insert(key.id, key.key_pair),
            final(self).identity() == old(self).identity(),
            final(self).registration() == old(self).registration(),
            final(self).next_pre_key() == old(self).next_pre_key(),
            final(self).signed_key() == old(self).signed_key(),
            final(self).session_pairs() == old(self).session_pairs(),
            final(self).trusted_pairs() == old(self).trusted_pairs(),
    {
        let ghost old_pairs = self.pool_pairs();
        let id = key.id;
        let ghost kp = key.key_pair;
        match self.find_pre_key(id) {
            Some(i) => {
                self.pre_keys.set(i, key);
                proof {
                    lemma_seq_map_update(old_pairs, i as int, kp);
                    assert(self.pool_pairs() =~= old_pairs.update(i as int, (id, kp)));
                }
            },
            None => {
                self.pre_keys.push(key);
                proof {
                    lemma_seq_map_push(old_pairs, id, kp);
                    assert(self.pool_pairs() =~= old_pairs.push((id, kp)));
                }
            },
        }
        assert(self.session_pairs() =~= old(self).session_pairs());
        assert(self.trusted_pairs() =~= old(self).trusted_pairs());
    }

    /// Allocates `count` sequential ids (wrapping), creates a pre-key for
    /// each, and returns the ids with the public keys. An id that occurs
    /// twice in a batch keeps the key of its last occurrence.
    pub fn generate_pre_keys(&mut self, count: u32) -> (r: Result<Vec<(u32, Vec<u8>)>, SignalError>)
        requires
            old(self).wf(),
        ensures
            final(self).wf(),
            r matches Ok(list) && {
                &&& list@.len() == count
                &&& forall|i: int|
                    0 <= i < count ==> (#[trigger] list@[i]).0 == pre_key_id_at(old(self).next_pre_key(), i)
                &&& forall|i: int|
                    0 <= i < count ==> final(self).pre_key_map().contains_key(#[trigger] list@[i].0)
                &&& forall|i: int|
                    0 <= i < count && (forall|k: int| i < k < count ==> list@[k].0 != list@[i].0)
                        ==> #[trigger] list@[i].1@ == final(self).pre_key_map()[list@[i].0].public_bytes()
                &&& forall|id: u32|
                    (forall|i: int| 0 <= i < count ==> list@[i].0 != id) ==> {
                        &&& #[trigger] final(self).pre_key_map().contains_key(id) == old(self).pre_key_map().contains_key(id)
                        &&& final(self).pre_key_map().contains_key(id) ==> final(self).pre_key_map()[id]
                            == old(self).pre_key_map()[id]
                    }
            },
            final(self).next_pre_key() == pre_key_id_at(old(self).next_pre_key(), count as int),
            final(self).identity() == old(self).identity(),
            final(self).registration() == old(self).registration(),
            final(self).signed_key() == old(self).signed_key(),
            final(self).session_map() == old(self).session_map(),
            final(self).trusted_map() == old(self).trusted_map(),
    {
        let start_id = self.next_pre_key_id;
        self.next_pre_key_id = ((start_id as u64 + count as u64) % (MAX_PRE_KEY_ID as u64)) as u32;
        assert(self.pool_pairs() =~= old(self).pool_pairs());
        assert(self.session_pairs() =~= old(self).session_pairs());
        assert(self.trusted_pairs() =~= old(self).trusted_pairs());
        let mut result: Vec<(u32, Vec<u8>)> = Vec::new();
        let mut i: u32 = 0;
        while i < count
            invariant
                self.wf(),
                i <= count,
                start_id == old(self).next_pre_key(),
                self.next_pre_key() == pre_key_id_at(start_id, count as int),
                self.identity() == old(self).identity(),
                self.registration() == old(self).registration(),
                self.signed_key() == old(self).signed_key(),
                self.session_pairs() == old(self).session_pairs(),
                self.trusted_pairs() == old(self).trusted_pairs(),
                result@.len() == i,
                forall|j: int| 0 <= j < i ==> (#[trigger] result@[j]).0 == pre_key_id_at(start_id, j),
                forall|j: int| 0 <= j < i ==> self.pre_key_map().contains_key(#[trigger] result@[j].0),
                forall|j: int|
                    0 <= j < i && (forall|k: int| j < k < i ==> result@[k].0 != result@[j].0)
                        ==> #[trigger] result@[j].1@ == self.pre_key_map()[result@[j].0].public_bytes(),
                forall|id: u32|
                    (forall|j: int| 0 <= j < i ==> result@[j].0 != id) ==> {
                        &&& #[trigger] self.pre_key_map().contains_key(id) == old(self).pre_key_map().contains_key(id)
                        &&& self.pre_key_map().contains_key(id) ==> self.pre_key_map()[id]
                            == old(self).pre_key_map()[id]
                    },
            decreases count - i,
        {
            let id = ((start_id as u64 + i as u64) % (MAX_PRE_KEY_ID as u64)) as u32;
            let pre_key = PreKey::generate(id);
            let public = pre_key.key_pair.public_key();
            let public_bytes = crate::bytes::copy_range(&public, 0, 32);
            assert(public_bytes@ =~= public@);
            let ghost kp = pre_key.key_pair;
            let ghost map_before = self.pre_key_map();
            self.store_pre_key(pre_key);
            let ghost before = result@;
            result.push((id, public_bytes));
            proof {
                assert forall|j: int|
                    0 <= j < i + 1 && (forall|k: int| j < k < i + 1 ==> result@[k].0 != result@[j].0)
                        implies #[trigger] result@[j].1@ == self.pre_key_map()[result@[j].0].public_bytes() by {
                    if j < i {
                        assert(result@[j] == before[j]);
                        assert(result@[i as int].0 != result@[j].0);
                        assert forall|k: int| j < k < i implies before[k].0 != before[j].0 by {
                            assert(result@[k] == before[k]);
                        }
                        assert(before[j].1@ == map_before[before[j].0].public_bytes());
                    } else {
                        assert(result@[j].1@ == public@);
                        assert(self.pre_key_map()[id] == kp);
                    }
                }
                assert forall|id2: u32| (forall|j: int| 0 <= j < i + 1 ==> result@[j].0 != id2) implies {
                    &&& #[trigger] self.pre_key_map().contains_key(id2) == old(self).pre_key_map().contains_key(id2)
                    &&& self.pre_key_map().contains_key(id2) ==> self.pre_key_map()[id2]
                        == old(self).pre_key_map()[id2]
                } by {
                    assert(result@[i as int].0 != id2);
                    assert forall|j: int| 0 <= j < i implies before[j].0 != id2 by {
                        assert(result@[j] == before[j]);
                    }
                }
            }
            i = i + 1;
        }
        assert forall|id: u32| (forall|j: int| 0 <= j < count ==> result@[j].0 != id) implies {
            &&& #[trigger] self.pre_key_map().contains_key(id) == old(self).pre_key_map().contains_key(id)
            &&& self.pre_key_map().contains_key(id) ==> self.pre_key_map()[id] == old(self).pre_key_map()[id]
        } by {
            assert(forall|j: int| 0 <= j < i ==> result@[j].0 != id);
        }
        Ok(result)
    }
}

impl SignalProtocol {
    /// Nothing changed.
    pub open spec fn unchanged(&self, t: &SignalProtocol) -> bool {
        &&& t.identity() == self.identity()
        &&& t.registration() == self.registration()
        &&& t.next_pre_key() == self.next_pre_key()
        &&& t.signed_key() == self.signed_key()
        &&& t.pool_pairs() == self.pool_pairs()
        &&& t.session_pairs() == self.session_pairs()
        &&& t.trusted_pairs() == self.trusted_pairs()
    }

    /// All but the sessions agree.
    pub open spec fn same_but_sessions(&self, t: &SignalProtocol) -> bool {
        &&& t.identity() == self.identity()
        &&& t.registration() == self.registration()
        &&& t.next_pre_key() == self.next_pre_key()
        &&& t.signed_key() == self.signed_key()
        &&& t.pre_key_map() == self.pre_key_map()
        &&& t.trusted_map() == self.trusted_map()
    }

    /// The failure that an initial message meets before any cryptography.
    pub open spec fn initial_failure(&self, m: InitialMessage) -> Option<SignalError> {
        if self.signed_key() is None {
            Some(SignalError::NoSignedPreKey)
        } else if self.signed_key()->0.id != m.signed_pre_key_id {
            Some(SignalError::UnknownSignedPreKey)
        } else if m.pre_key_id matches Some(id) && !self.pre_key_map().contains_key(id) {
            Some(SignalError::UnknownPreKey)
        } else {
            None
        }
    }

    /// The X3DH secret the responder derives for an initial message.
    pub open spec fn initial_secret(&self, m: InitialMessage) -> Seq<u8> {
        responder_secret(
            self.identity().signing_secret(),
            self.signed_key()->0.key_pair.secret_bytes(),
            match m.pre_key_id {
                Some(id) => Some(self.pre_key_map()[id].secret_bytes()),
                None => None,
            },
            m.identity_key@,
            m.ephemeral_key@,
        )
    }

    /// What `decrypt_initial` does with an initial message `m` that was read
    /// from the bytes, from `address`, giving `r` and engine `t`.
    pub open spec fn initial_result(
        &self,
        address: (Seq<char>, u32),
        m: InitialMessage,
        r: Result<Vec<u8>, SignalError>,
        t: &SignalProtocol,
    ) -> bool {
        match self.initial_failure(m) {
            Some(e) => r == Err::<Vec<u8>, SignalError>(e),
            None => {
                &&& !ratchet_message_complete(m.encrypted_message@) ==> r
                    == Err::<Vec<u8>, SignalError>(SignalError::MalformedMessage)
                &&& ratchet_message_complete(m.encrypted_message@) ==> exists|
                    s0: SessionState,
                    msg: RatchetMessage,
                    s1: SessionState,
                |
                    {
                        &&& responder_session(s0, self.initial_secret(m))
                        &&& s0.ratchet_pair() == self.signed_key()->0.key_pair
                        &&& ratchet_message_decodes_to(m.encrypted_message@, msg)
                        &&& #[trigger] s0.decrypt_outcome(msg, r, &s1)
                        &&& r is Ok ==> t.session_map().contains_key(address)
                            && t.session_map()[address] == s1
                    }
                &&& r is Ok ==> {
                    &&& t.pre_key_map() == match m.pre_key_id {
                        Some(id) => self.pre_key_map().remove(id),
                        None => self.pre_key_map(),
                    }
                    &&& t.trusted_map() == self.trusted_map().insert(address.0, m.identity_key@)
                    &&& t.session_map().contains_key(address)
                    &&& t.session_map() == self.session_map().insert(address, t.session_map()[address])
                    &&& t.identity() == self.identity()
                    &&& t.registration() == self.registration()
                    &&& t.next_pre_key() == self.next_pre_key()
                    &&& t.signed_key() == self.signed_key()
                }
            },
        }
    }

    /// What `decrypt_initial` does with bytes `ct` from `address`.
    pub open spec fn decrypt_initial_outcome(
        &self,
        address: (Seq<char>, u32),
        ct: Seq<u8>,
        r: Result<Vec<u8>, SignalError>,
        t: &SignalProtocol,
    ) -> bool {
        &&& r is Err ==> self.unchanged(t)
        &&& !initial_parses(ct) ==> r is Err
        &&& forall|m: InitialMessage|
            initial_parses(ct) && #[trigger] initial_decodes_to(ct, m) ==> self.initial_result(
                address,
                m,
                r,
                t,
            )
    }

    /// Replaces the active signed pre-key with a fresh one whose public key is
    /// signed by the identity key; returns the public key and signature.
    pub fn generate_signed_pre_key(&mut self, id: u32) -> (r: Result<(Vec<u8>, Vec<u8>), SignalError>)
        requires
            old(self).wf(),
        ensures
            final(self).wf(),
            r matches Ok((public, signature)) && final(self).signed_key() matches Some(k) && {
                &&& k.id == id
                &&& public@ == k.key_pair.public_bytes()
                &&& signature@ == k.signature@
                &&& signature@ == ed25519_signature(old(self).identity().signing_secret(), public@)
            },
            final(self).identity() == old(self).identity(),
            final(self).registration() == old(self).registration(),
            final(self).next_pre_key() == old(self).next_pre_key(),
            final(self).pre_key_map() == old(self).pre_key_map(),
            final(self).session_map() == old(self).session_map(),
            final(self).trusted_map() == old(self).trusted_map(),
    {
        let signed_pre_key = SignedPreKey::generate(id, &self.identity_key);
        let public = signed_pre_key.key_pair.public_key();
        let public_key = crate::bytes::copy_range(&public, 0, 32);
        let signature = crate::bytes::copy_range(&signed_pre_key.signature, 0, 64);
        assert(public_key@ =~= public@);
        assert(signature@ =~= signed_pre_key.signature@);
        self.signed_pre_key = Some(signed_pre_key);
        assert(self.pool_pairs() =~= old(self).pool_pairs());
        assert(self.session_pairs() =~= old(self).session_pairs());
        assert(self.trusted_pairs() =~= old(self).trusted_pairs());
        Ok((public_key, signature))
    }

    pub fn get_signed_pre_key(&self) -> (r: Option<&SignedPreKey>)
        ensures
            r matches Some(k) ==> self.signed_key() == Some(*k),
            r is None ==> self.signed_key() is None,
    {
        self.signed_pre_key.as_ref()
    }

    /// Our bundle for publication. Fails with `NoSignedPreKey` when no signed
    /// pre-key exists; carries a one-time pre-key when the pool has one.
    pub fn create_pre_key_bundle(&self, device_id: u32) -> (r: Result<PreKeyBundle, SignalError>)
        requires
            self.wf(),
        ensures
            r is Err <==> self.signed_key() is None,
            r matches Err(e) ==> e == SignalError::NoSignedPreKey,
            r matches Ok(b) ==> {
                let k = self.signed_key()->0;
                &&& b.registration_id == self.registration()
                &&& b.device_id == device_id
                &&& b.signed_pre_key_id == k.id
                &&& b.signed_pre_key_public@ == k.key_pair.public_bytes()
                &&& b.signed_pre_key_signature == k.signature
                &&& b.identity_key@ == self.identity().verifying_bytes()
                &&& b.signature_valid()
                &&& (b.pre_key_id is None <==> self.pre_key_map() == Map::<u32, DhKeyPair>::empty())
                &&& b.pre_key_id is None <==> b.pre_key_public is None
                &&& b.pre_key_id matches Some(id) ==> self.pre_key_map().contains_key(id) && b.pre_key_public->0@
                    == self.pre_key_map()[id].public_bytes()
            },
    {
        let signed_pre_key = match &self.signed_pre_key {
            Some(k) => k,
            None => return Err(SignalError::NoSignedPreKey),
        };
        let (pre_key_id, pre_key_public) = if self.pre_keys.len() > 0 {
            proof {
                lemma_seq_map_index(self.pool_pairs(), 0);
            }
            (Some(self.pre_keys[0].id), Some(self.pre_keys[0].key_pair.public_key()))
        } else {
            proof {
                lemma_seq_map_empty(self.pool_pairs());
            }
            (None, None)
        };
        Ok(PreKeyBundle {
            registration_id: self.registration_id,
            device_id,
            pre_key_id,
            pre_key_public,
            signed_pre_key_id: signed_pre_key.id,
            signed_pre_key_public: signed_pre_key.key_pair.public_key(),
            signed_pre_key_signature: signed_pre_key.signature,
            identity_key: self.identity_key.public_key(),
        })
    }

    fn find_session(&self, address: &ProtocolAddress) -> (r: Option<usize>)
        ensures
            r matches Some(i) ==> i < self.session_pairs().len() && self.session_pairs()[i as int].0
                == address@,
            r is None ==> !has_key(self.session_pairs(), address@),
    {
        let mut i: usize = 0;
        while i < self.sessions.len()
            invariant
                i <= self.sessions@.len(),
                forall|j: int| 0 <= j < i ==> self.session_pairs()[j].0 != address@,
            decreases self.sessions@.len() - i,
        {
            let a = &self.sessions[i].address;
            if a.device_id == address.device_id && a.name == address.name {
                return Some(i);
            }
            i = i + 1;
        }
        None
    }

    /// Stores `session` under `address`, replacing an existing session.
    fn store_session(&mut self, address: &ProtocolAddress, session: SessionState)
        requires
            old(self).wf(),
            session.wf(),
        ensures
            final(self).wf(),
            final(self).session_map() == old(self).session_map().insert(address@, session),
            old(self).same_but_sessions(final(self)),
            final(self).pool_pairs() == old(self).pool_pairs(),
            final(self).trusted_pairs() == old(self).trusted_pairs(),
    {
        let ghost old_pairs = self.session_pairs();
        match self.find_session(address) {
            Some(i) => {
                let mut entry = self.sessions.remove(i);
                entry.session = session;
                self.sessions.insert(i, entry);
                proof {
                    lemma_seq_map_update(old_pairs, i as int, session);
                    assert(self.session_pairs() =~= old_pairs.update(i as int, (address@, session)));
                }
            },
            None => {
                self.sessions.push(SessionEntry { address: address.clone(), session });
                proof {
                    lemma_seq_map_push(old_pairs, address@, session);
                    assert(self.session_pairs() =~= old_pairs.push((address@, session)));
                }
            },
        }
        assert(self.pool_pairs() =~= old(self).pool_pairs());
        assert(self.trusted_pairs() =~= old(self).trusted_pairs());
    }

    fn find_trusted(&self, name: &String) -> (r: Option<usize>)
        ensures
            r matches Some(i) ==> i < self.trusted_pairs().len() && self.trusted_pairs()[i as int].0
                == name@,
            r is None ==> !has_key(self.trusted_pairs(), name@),
    {
        let mut i: usize = 0;
        while i < self.trusted_identities.len()
            invariant
                i <= self.trusted_identities@.len(),
                forall|j: int| 0 <= j < i ==> self.trusted_pairs()[j].0 != name@,
            decreases self.trusted_identities@.len() - i,
        {
            if self.trusted_identities[i].name == *name {
                return Some(i);
            }
            i = i + 1;
        }
        None
    }

    fn store_trusted(&mut self, name: String, key: IdentityPublicKey)
        requires
            old(self).wf(),
        ensures
            final(self).wf(),
            final(self).trusted_map() == old(self).trusted_map().insert(name@, key@),
            final(self).identity() == old(self).identity(),
            final(self).registration() == old(self).registration(),
            final(self).next_pre_key() == old(self).next_pre_key(),
            final(self).signed_key() == old(self).signed_key(),
            final(self).pool_pairs() == old(self).pool_pairs(),
            final(self).session_pairs() == old(self).session_pairs(),
    {
        let ghost old_pairs = self.trusted_pairs();
        match self.find_trusted(&name) {
            Some(i) => {
                self.trusted_identities.set(i, TrustedIdentity { name, key });
                proof {
                    lemma_seq_map_update(old_pairs, i as int, key@);
                    assert(self.trusted_pairs() =~= old_pairs.update(i as int, (old_pairs[i as int].0, key@)));
                }
            },
            None => {
                let ghost n = name@;
                self.trusted_identities.push(TrustedIdentity { name, key });
                proof {
                    lemma_seq_map_push(old_pairs, n, key@);
                    assert(self.trusted_pairs() =~= old_pairs.push((n, key@)));
                }
            },
        }
        assert(self.pool_pairs() =~= old(self).pool_pairs());
        assert(self.session_pairs() =~= old(self).session_pairs());
    }

    /// Trusts `identity_key` for the peer `name`, replacing an earlier key.
    pub fn trust_identity(&mut self, name: &str, identity_key: IdentityPublicKey)
        requires
            old(self).wf(),
        ensures
            final(self).wf(),
            final(self).trusted_map() == old(self).trusted_map().insert(name@, identity_key@),
            final(self).identity() == old(self).identity(),
            final(self).registration() == old(self).registration(),
            final(self).next_pre_key() == old(self).next_pre_key(),
            final(self).signed_key() == old(self).signed_key(),
            final(self).pre_key_map() == old(self).pre_key_map(),
            final(self).session_map() == old(self).session_map(),
    {
        self.store_trusted(name.to_owned(), identity_key);
    }

    /// Whether `identity_key` is the trusted key of the peer `name`.
    pub fn is_identity_trusted(&self, name: &str, identity_key: &IdentityPublicKey) -> (r: bool)
        requires
            self.wf(),
        ensures
            r == (self.trusted_map().contains_key(name@) && self.trusted_map()[name@] == identity_key@),
    {
        let owned = name.to_owned();
        match self.find_trusted(&owned) {
            Some(i) => {
                proof {
                    lemma_seq_map_index(self.trusted_pairs(), i as int);
                }
                eq_32(&self.trusted_identities[i].key.as_bytes(), &identity_key.as_bytes())
            },
            None => false,
        }
    }
}

impl SignalProtocol {
    /// Verifies `bundle`, checks it against the identity trusted for the
    /// address's name, runs X3DH and stores a new initiator session for
    /// `address`, replacing any session there.
    pub fn process_pre_key_bundle(&mut self, address: &ProtocolAddress, bundle: &PreKeyBundle) -> (r: Result<(), SignalError>)
        requires
            old(self).wf(),
        ensures
            final(self).wf(),
            r is Ok <==> bundle.signature_valid() && !old(self).identity_conflict(address.name@, bundle.identity_key@),
            r matches Err(e) ==> old(self).unchanged(final(self)) && e == if !bundle.signature_valid() {
                SignalError::VerificationFailure
            } else {
                SignalError::IdentityMismatch
            },
            r is Ok ==> {
                &&& old(self).same_but_sessions(final(self))
                &&& final(self).session_map() == old(self).session_map().insert(
                    address@,
                    final(self).session_map()[address@],
                )
                &&& exists|ephemeral: Seq<u8>|
                    initiator_session(
                        final(self).session_map()[address@],
                        #[trigger] bundle_secret(old(self).identity(), ephemeral, *bundle),
                        bundle.signed_pre_key_public@,
                    )
            },
    {
        bundle.verify()?;
        let name = address.name.clone();
        match self.find_trusted(&name) {
            Some(i) => {
                proof {
                    lemma_seq_map_index(self.trusted_pairs(), i as int);
                }
                if !eq_32(&self.trusted_identities[i].key.as_bytes(), &bundle.identity_key.as_bytes()) {
                    return Err(SignalError::IdentityMismatch);
                }
            },
            None => {},
        }
        let x3dh_result = x3dh_initiate(&self.identity_key, bundle)?;
        let our_ratchet_key = DhKeyPair::generate();
        let session = SessionState::initialize_alice(
            &x3dh_result.shared_secret,
            our_ratchet_key,
            &bundle.signed_pre_key_public,
        )?;
        let ghost stored = session;
        self.store_session(address, session);
        proof {
            let e = choose|e: Seq<u8>|
                {
                    &&& e.len() == 32
                    &&& x3dh_result.ephemeral_public_key@ == x25519_base(e)
                    &&& x3dh_result.shared_secret@ == #[trigger] initiator_secret(
                        old(self).identity().signing_secret(),
                        e,
                        bundle.identity_key@,
                        bundle.signed_pre_key_public@,
                        opt_bytes(bundle.pre_key_public),
                    )
                };
            assert(initiator_session(
                self.session_map()[address@],
                bundle_secret(old(self).identity(), e, *bundle),
                bundle.signed_pre_key_public@,
            ));
        }
        Ok(())
    }

    /// Encrypts for `address` with its session. Fails with `UnknownSession`
    /// when there is none.
    pub fn encrypt(&mut self, address: &ProtocolAddress, plaintext: &[u8]) -> (r: Result<Vec<u8>, SignalError>)
        requires
            old(self).wf(),
        ensures
            final(self).wf(),
            r is Ok <==> old(self).session_map().contains_key(address@) && old(self).session_map()[address@].can_encrypt(plaintext@),
            r is Err ==> old(self).unchanged(final(self)),
            !old(self).session_map().contains_key(address@) ==> r == Err::<Vec<u8>, SignalError>(SignalError::UnknownSession),
            r matches Ok(bytes) ==> {
                &&& old(self).same_but_sessions(final(self))
                &&& final(self).session_map() == old(self).session_map().insert(
                    address@,
                    final(self).session_map()[address@],
                )
                &&& exists|msg: RatchetMessage|
                    #[trigger] old(self).session_map()[address@].encrypt_outcome(
                        plaintext@,
                        Ok(msg),
                        &final(self).session_map()[address@],
                    ) && bytes@ == ratchet_message_bytes(msg)
            },
    {
        let i = match self.find_session(address) {
            Some(i) => i,
            None => return Err(SignalError::UnknownSession),
        };
        proof {
            lemma_seq_map_index(self.session_pairs(), i as int);
        }
        let ghost old_pairs = self.session_pairs();
        let mut entry = self.sessions.remove(i);
        let result = entry.session.encrypt(plaintext);
        let ghost new_session = entry.session;
        self.sessions.insert(i, entry);
        match result {
            Ok(message) => {
                proof {
                    assert(old(self).session_map()[address@] == old_pairs[i as int].1);
                    lemma_seq_map_update(old_pairs, i as int, new_session);
                    assert(self.session_pairs() =~= old_pairs.update(i as int, (address@, new_session)));
                    assert(self.pool_pairs() =~= old(self).pool_pairs());
                    assert(self.trusted_pairs() =~= old(self).trusted_pairs());
                    assert(self.session_map()[address@] == new_session);
                }
                Ok(message.serialize())
            },
            Err(e) => {
                proof {
                    assert(self.sessions@ =~= old(self).sessions@);
                    assert(self.session_pairs() =~= old(self).session_pairs());
                    assert(self.pool_pairs() =~= old(self).pool_pairs());
                    assert(self.trusted_pairs() =~= old(self).trusted_pairs());
                }
                Err(e)
            },
        }
    }

    /// Decrypts a message of an established session with `address`. Fails
    /// with `UnknownSession` when there is none and with `MalformedMessage`
    /// when the bytes are no ratchet message; otherwise the session decides.
    pub fn decrypt(&mut self, address: &ProtocolAddress, ciphertext: &[u8]) -> (r: Result<Vec<u8>, SignalError>)
        requires
            old(self).wf(),
        ensures
            final(self).wf(),
            r is Err ==> old(self).unchanged(final(self)),
            !old(self).session_map().contains_key(address@) ==> r == Err::<Vec<u8>, SignalError>(SignalError::UnknownSession),
            old(self).session_map().contains_key(address@) && !ratchet_message_complete(ciphertext@)
                ==> r == Err::<Vec<u8>, SignalError>(SignalError::MalformedMessage),
            old(self).session_map().contains_key(address@) && ratchet_message_complete(ciphertext@)
                ==> {
                &&& old(self).same_but_sessions(final(self))
                &&& final(self).session_map() == old(self).session_map().insert(
                    address@,
                    final(self).session_map()[address@],
                )
                &&& exists|msg: RatchetMessage|
                    ratchet_message_decodes_to(ciphertext@, msg)
                        && #[trigger] old(self).session_map()[address@].decrypt_outcome(
                        msg,
                        r,
                        &final(self).session_map()[address@],
                    )
            },
    {
        let i = match self.find_session(address) {
            Some(i) => i,
            None => return Err(SignalError::UnknownSession),
        };
        proof {
            lemma_seq_map_index(self.session_pairs(), i as int);
        }
        let message = RatchetMessage::deserialize(ciphertext)?;
        let ghost old_pairs = self.session_pairs();
        assert(old(self).session_map()[address@] == old_pairs[i as int].1);
        let mut entry = self.sessions.remove(i);
        let result = entry.session.decrypt(&message);
        let ghost new_session = entry.session;
        self.sessions.insert(i, entry);
        proof {
            lemma_seq_map_update(old_pairs, i as int, new_session);
            assert(self.session_pairs() =~= old_pairs.update(i as int, (address@, new_session)));
            assert(self.pool_pairs() =~= old(self).pool_pairs());
            assert(self.trusted_pairs() =~= old(self).trusted_pairs());
            assert(self.session_map()[address@] == new_session);
            if result is Err {
                assert(self.sessions@ =~= old(self).sessions@);
                assert(self.session_pairs() =~= old(self).session_pairs());
            }
        }
        result
    }

    /// Whether a session with `address` exists.
    pub fn has_session(&self, address: &ProtocolAddress) -> (r: bool)
        requires
            self.wf(),
        ensures
            r == self.session_map().contains_key(address@),
    {
        match self.find_session(address) {
            Some(i) => {
                proof {
                    lemma_seq_map_index(self.session_pairs(), i as int);
                }
                true
            },
            None => false,
        }
    }

    /// The safety number with the trusted identity of `remote_id`. Fails
    /// with `UntrustedIdentity` when no identity is trusted for it.
    pub fn get_safety_number(&self, local_id: &str, remote_id: &str) -> (r: Result<String, SignalError>)
        requires
            self.wf(),
        ensures
            r is Ok <==> self.trusted_map().contains_key(remote_id@),
            r matches Err(e) ==> e == SignalError::UntrustedIdentity,
            r matches Ok(s) ==> s@ == fingerprint_of(
                self.identity().verifying_bytes(),
                local_id.spec_bytes(),
                self.trusted_map()[remote_id@],
                remote_id.spec_bytes(),
            ),
    {
        let name = remote_id.to_owned();
        match self.find_trusted(&name) {
            Some(i) => {
                proof {
                    lemma_seq_map_index(self.trusted_pairs(), i as int);
                }
                let local = self.identity_key.public_key();
                Ok(calculate_fingerprint(&local, local_id, &self.trusted_identities[i].key, remote_id))
            },
            None => Err(SignalError::UntrustedIdentity),
        }
    }

    /// Number of one-time pre-keys in the pool.
    pub fn pre_key_count(&self) -> (r: usize)
        ensures
            r == self.pool_pairs().len(),
    {
        self.pre_keys.len()
    }

    /// Generates a batch of `PRE_KEY_BATCH_SIZE` pre-keys when fewer than
    /// `PRE_KEY_LOW_WATER` remain, returning them; otherwise does nothing.
    pub fn refill_pre_keys_if_needed(&mut self) -> (r: Result<Option<Vec<(u32, Vec<u8>)>>, SignalError>)
        requires
            old(self).wf(),
        ensures
            final(self).wf(),
            old(self).pool_pairs().len() >= PRE_KEY_LOW_WATER ==> r == Ok::<
                Option<Vec<(u32, Vec<u8>)>>,
                SignalError,
            >(None) && old(self).unchanged(final(self)),
            old(self).pool_pairs().len() < PRE_KEY_LOW_WATER ==> (r matches Ok(Some(list)) && list@.len()
                == PRE_KEY_BATCH_SIZE && forall|i: int|
                0 <= i < PRE_KEY_BATCH_SIZE ==> final(self).pre_key_map().contains_key(
                    #[trigger] list@[i].0,
                )),
    {
        if self.pre_keys.len() < PRE_KEY_LOW_WATER {
            let new_keys = self.generate_pre_keys(PRE_KEY_BATCH_SIZE)?;
            Ok(Some(new_keys))
        } else {
            Ok(None)
        }
    }
}

impl SignalProtocol {
    fn remove_pre_key_at(&mut self, i: usize)
        requires
            old(self).wf(),
            i < old(self).pool_pairs().len(),
        ensures
            final(self).wf(),
            final(self).pre_key_map() == old(self).pre_key_map().remove(old(self).pool_pairs()[i as int].0),
            final(self).identity() == old(self).identity(),
            final(self).registration() == old(self).registration(),
            final(self).next_pre_key() == old(self).next_pre_key(),
            final(self).signed_key() == old(self).signed_key(),
            final(self).session_pairs() == old(self).session_pairs(),
            final(self).trusted_pairs() == old(self).trusted_pairs(),
    {
        let ghost old_pairs = self.pool_pairs();
        let _ = self.pre_keys.remove(i);
        proof {
            lemma_seq_map_remove(old_pairs, i as int);
            assert(self.pool_pairs() =~= old_pairs.remove(i as int));
            assert forall|j: int| 0 <= j < self.pool_pairs().len() implies (#[trigger] self.pool_pairs()[j]).1.wf() by {
                if j < i {
                    assert(self.pool_pairs()[j] == old_pairs[j]);
                } else {
                    assert(self.pool_pairs()[j] == old_pairs[j + 1]);
                }
            }
        }
        assert(self.session_pairs() =~= old(self).session_pairs());
        assert(self.trusted_pairs() =~= old(self).trusted_pairs());
    }

    /// Starts a session with the owner of `bundle` and encrypts the first
    /// message: X3DH, a new initiator session stored for `address`, and an
    /// initial message carrying our identity, the ephemeral key and the
    /// pre-key ids. Fails with `VerificationFailure` on a bad bundle and
    /// with `EncryptionFailure` on a plaintext that the initial message
    /// cannot carry; then nothing changes.
    pub fn encrypt_initial(
        &mut self,
        address: &ProtocolAddress,
        bundle: &PreKeyBundle,
        plaintext: &[u8],
    ) -> (r: Result<Vec<u8>, SignalError>)
        requires
            old(self).wf(),
        ensures
            final(self).wf(),
            r is Ok <==> bundle.signature_valid() && plaintext@.len() <= MAX_INITIAL_PLAINTEXT,
            r matches Err(e) ==> old(self).unchanged(final(self)) && e == if !bundle.signature_valid() {
                SignalError::VerificationFailure
            } else {
                SignalError::EncryptionFailure
            },
            r matches Ok(bytes) ==> {
                &&& old(self).same_but_sessions(final(self))
                &&& final(self).session_map() == old(self).session_map().insert(
                    address@,
                    final(self).session_map()[address@],
                )
                &&& exists|m: InitialMessage, msg: RatchetMessage, s0: SessionState, e: Seq<u8>|
                    #![trigger initial_message_bytes(m), s0.encrypt_outcome(plaintext@, Ok(msg), &final(self).session_map()[address@]), bundle_secret(old(self).identity(), e, *bundle)]
                    {
                        &&& bytes@ == initial_message_bytes(m)
                        &&& m.version == X3DH_VERSION
                        &&& m.identity_key@ == old(self).identity().verifying_bytes()
                        &&& m.ephemeral_key@ == x25519_base(e)
                        &&& m.pre_key_id == match bundle.pre_key_public {
                            Some(_) => bundle.pre_key_id,
                            None => None,
                        }
                        &&& m.signed_pre_key_id == bundle.signed_pre_key_id
                        &&& m.encrypted_message@ == ratchet_message_bytes(msg)
                        &&& initiator_session(
                            s0,
                            bundle_secret(old(self).identity(), e, *bundle),
                            bundle.signed_pre_key_public@,
                        )
                        &&& s0.encrypt_outcome(plaintext@, Ok(msg), &final(self).session_map()[address@])
                    }
            },
    {
        let x3dh_result = x3dh_initiate(&self.identity_key, bundle)?;
        if plaintext.len() > MAX_INITIAL_PLAINTEXT {
            return Err(SignalError::EncryptionFailure);
        }
        let our_ratchet_key = DhKeyPair::generate();
        let mut session = SessionState::initialize_alice(
            &x3dh_result.shared_secret,
            our_ratchet_key,
            &bundle.signed_pre_key_public,
        )?;
        let ghost s0 = session;
        let message = match session.encrypt(plaintext) {
            Ok(m) => m,
            Err(e) => {
                assert(false);
                return Err(e);
            },
        };
        let encrypted = message.serialize();
        assert(message.header.dh_ratchet_key@.len() == 32);
        assert(encrypted@.len() == plaintext@.len() + 60);
        self.store_session(address, session);
        let initial = InitialMessage::new(
            self.identity_key.public_key(),
            x3dh_result.ephemeral_public_key,
            x3dh_result.used_pre_key_id,
            bundle.signed_pre_key_id,
            encrypted,
        );
        let bytes = initial.serialize();
        proof {
            let e = choose|e: Seq<u8>|
                {
                    &&& e.len() == 32
                    &&& x3dh_result.ephemeral_public_key@ == x25519_base(e)
                    &&& x3dh_result.shared_secret@ == #[trigger] initiator_secret(
                        old(self).identity().signing_secret(),
                        e,
                        bundle.identity_key@,
                        bundle.signed_pre_key_public@,
                        opt_bytes(bundle.pre_key_public),
                    )
                };
            assert(initiator_session(
                s0,
                bundle_secret(old(self).identity(), e, *bundle),
                bundle.signed_pre_key_public@,
            ));
            assert(s0.encrypt_outcome(plaintext@, Ok(message), &self.session_map()[address@]));
            assert(bytes@ == initial_message_bytes(initial));
        }
        Ok(bytes)
    }

    /// Reads an initial message from `address`: checks the referenced signed
    /// pre-key and one-time pre-key, runs X3DH as responder, creates a
    /// responder session whose ratchet key is the signed pre-key (the key the
    /// initiator ratcheted against) and decrypts the embedded message. On success the
    /// session is stored, the sender's identity is trusted and the one-time
    /// pre-key leaves the pool; on any failure nothing changes.
    pub fn decrypt_initial(&mut self, address: &ProtocolAddress, ciphertext: &[u8]) -> (r: Result<Vec<u8>, SignalError>)
        requires
            old(self).wf(),
        ensures
            final(self).wf(),
            old(self).decrypt_initial_outcome(address@, ciphertext@, r, final(self)),
    {
        let initial = InitialMessage::deserialize(ciphertext)?;
        let signed_pre_key = match &self.signed_pre_key {
            Some(k) => k,
            None => return Err(SignalError::NoSignedPreKey),
        };
        if signed_pre_key.id != initial.signed_pre_key_id {
            return Err(SignalError::UnknownSignedPreKey);
        }
        let pre_key_index: Option<usize> = match initial.pre_key_id {
            Some(id) => match self.find_pre_key(id) {
                Some(i) => {
                    proof {
                        lemma_seq_map_index(self.pool_pairs(), i as int);
                    }
                    Some(i)
                },
                None => return Err(SignalError::UnknownPreKey),
            },
            None => None,
        };
        let shared_secret = match pre_key_index {
            Some(i) => x3dh_respond(
                &self.identity_key,
                &signed_pre_key.key_pair,
                Some(&self.pre_keys[i].key_pair),
                &initial.identity_key,
                &initial.ephemeral_key,
            )?,
            None => x3dh_respond(
                &self.identity_key,
                &signed_pre_key.key_pair,
                None,
                &initial.identity_key,
                &initial.ephemeral_key,
            )?,
        };
        let mut session = SessionState::initialize_bob(&shared_secret, signed_pre_key.key_pair.clone());
        let ghost s0 = session;
        proof {
            assert(responder_session(s0, old(self).initial_secret(initial)));
        }
        let message = match RatchetMessage::deserialize(initial.encrypted_message.as_slice()) {
            Ok(m) => m,
            Err(e) => {
                proof {
                    assert forall|m: InitialMessage|
                        initial_parses(ciphertext@) && #[trigger] initial_decodes_to(ciphertext@, m) implies old(
                        self,
                    ).initial_result(address@, m, Err(e), self) by {
                        assert(m.encrypted_message@ == initial.encrypted_message@);
                    }
                }
                return Err(e);
            },
        };
        let plaintext = match session.decrypt(&message) {
            Ok(p) => p,
            Err(e) => {
                proof {
                    assert(s0.decrypt_outcome(message, Err(e), &session));
                    assert forall|m: InitialMessage|
                        initial_parses(ciphertext@) && #[trigger] initial_decodes_to(ciphertext@, m) implies old(
                        self,
                    ).initial_result(address@, m, Err(e), self) by {
                        assert(m.identity_key@ == initial.identity_key@);
                        assert(m.ephemeral_key@ == initial.ephemeral_key@);
                        assert(m.encrypted_message@ == initial.encrypted_message@);
                        assert(old(self).initial_secret(m) == old(self).initial_secret(initial));
                        assert(s0.decrypt_outcome(message, Err(e), &session));
                    }
                }
                return Err(e);
            },
        };
        let ghost s1 = session;
        self.store_session(address, session);
        self.store_trusted(address.name.clone(), initial.identity_key);
        match pre_key_index {
            Some(i) => self.remove_pre_key_at(i),
            None => {},
        }
        proof {
            assert(self.session_map()[address@] == s1);
            assert forall|m: InitialMessage|
                initial_parses(ciphertext@) && #[trigger] initial_decodes_to(ciphertext@, m) implies old(
                self,
            ).initial_result(address@, m, Ok(plaintext), self) by {
                assert(m.identity_key@ == initial.identity_key@);
                assert(m.ephemeral_key@ == initial.ephemeral_key@);
                assert(m.encrypted_message@ == initial.encrypted_message@);
                assert(old(self).initial_secret(m) == old(self).initial_secret(initial));
                assert(s0.decrypt_outcome(message, Ok(plaintext), &s1));
            }
        }
        Ok(plaintext)
    }
}

impl SignalProtocol {
    /// The stored form of the session with `address`, if there is one.
    pub fn get_session(&self, address: &ProtocolAddress) -> (r: Option<Vec<u8>>)
        requires
            self.wf(),
        ensures
            r is Some <==> self.session_map().contains_key(address@),
            r matches Some(bytes) ==> bytes@ == self.session_map()[address@].encoding(),
    {
        match self.find_session(address) {
            Some(i) => {
                proof {
                    lemma_seq_map_index(self.session_pairs(), i as int);
                }
                Some(self.sessions[i].session.serialize())
            },
            None => None,
        }
    }

    /// Restores a stored session for `address`, replacing any session there.
    /// Fails with `MalformedMessage`, changing nothing, unless the bytes are
    /// the stored form of a session.
    pub fn restore_session(&mut self, address: &ProtocolAddress, data: &[u8]) -> (r: Result<(), SignalError>)
        requires
            old(self).wf(),
        ensures
            final(self).wf(),
            (exists|s: SessionState| s.wf() && #[trigger] s.encoding() == data@) ==> r is Ok,
            r matches Err(e) ==> e == SignalError::MalformedMessage && old(self).unchanged(final(self)),
            r is Ok ==> {
                &&& old(self).same_but_sessions(final(self))
                &&& final(self).session_map().contains_key(address@)
                &&& final(self).session_map()[address@].encoding() == data@
                &&& final(self).session_map() == old(self).session_map().insert(
                    address@,
                    final(self).session_map()[address@],
                )
            },
    {
        let session = SessionState::deserialize(data)?;
        self.store_session(address, session);
        Ok(())
    }
}

impl Default for SignalProtocol {
    /// A new endpoint, as `new` makes it.
    fn default() -> (r: Self)
        ensures
            r.wf(),
            r.registration() < 0x4000,
            r.signed_key() is None,
            r.pre_key_map() == Map::<u32, DhKeyPair>::empty(),
            r.session_map() == Map::<(Seq<char>, u32), SessionState>::empty(),
    {
        match Self::new() {
            Ok(p) => p,
            Err(_) => {
                assert(false);
                Self::with_identity(IdentityKeyPair::generate(), 0)
            },
        }
    }
}

/// A one-time pre-key serves once: after `decrypt_initial` succeeds on a
/// message naming it, it is gone from the pool, and a second initial
/// message naming it fails with `UnknownPreKey`.
pub proof fn lemma_pre_key_used_once(
    s0: SignalProtocol,
    first_sender: (Seq<char>, u32),
    first: Seq<u8>,
    first_message: InitialMessage,
    r1: Result<Vec<u8>, SignalError>,
    s1: SignalProtocol,
    second_sender: (Seq<char>, u32),
    second: Seq<u8>,
    second_message: InitialMessage,
    r2: Result<Vec<u8>, SignalError>,
    s2: SignalProtocol,
)
    requires
        s0.decrypt_initial_outcome(first_sender, first, r1, &s1),
        r1 is Ok,
        initial_decodes_to(first, first_message),
        s1.decrypt_initial_outcome(second_sender, second, r2, &s2),
        initial_parses(second),
        initial_decodes_to(second, second_message),
        second_message.pre_key_id == first_message.pre_key_id,
        second_message.signed_pre_key_id == first_message.signed_pre_key_id,
        first_message.pre_key_id is Some,
    ensures
        !s1.pre_key_map().contains_key(first_message.pre_key_id->0),
        r2 == Err::<Vec<u8>, SignalError>(SignalError::UnknownPreKey),
{
    assert(initial_parses(first));
    assert(s0.initial_result(first_sender, first_message, r1, &s1));
    assert(s1.initial_result(second_sender, second_message, r2, &s2));
}

} // verus!
