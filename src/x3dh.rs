//! X3DH: the initial key agreement between an initiator holding the
//! responder's published bundle and the responder.
use vstd::prelude::*;

use crate::bundle::PreKeyBundle;
use crate::bytes::{
    be32, lemma_be32_round_trip, opt_bytes, copy_32, copy_range, get_be32, push_be32, push_bytes, read_be32,
};
use crate::error::SignalError;
use crate::kdf::SignalHkdf;
use crate::keys::{identity_dh_secret, DhKeyPair, IdentityKeyPair, IdentityPublicKey};
use crate::primitives::{
    ed25519_key_ok, edwards_to_montgomery, hkdf_sha256, montgomery_of, sha256, sha256_of, x25519,
    x25519_base,
};

verus! {

/// Protocol version carried by initial messages.
pub const X3DH_VERSION: u8 = 3;

/// The 32 bytes of 0xFF that precede the DH outputs.
pub open spec fn x3dh_padding() -> Seq<u8> {
    Seq::new(32, |i: int| 0xFFu8)
}

/// HKDF label of X3DH.
pub open spec fn x3dh_info() -> Seq<u8> {
    seq![88u8, 51u8, 68u8, 72u8]
}

/// Label hashed with an identity key that is not a valid Edwards point.
pub open spec fn conversion_label() -> Seq<u8> {
    seq![
        88u8, 51u8, 68u8, 72u8, 95u8, 73u8, 68u8, 69u8, 78u8, 84u8, 73u8, 84u8, 89u8, 95u8, 67u8,
        79u8, 78u8, 86u8, 69u8, 82u8, 83u8, 73u8, 79u8, 78u8,
    ]
}

/// The X25519 form of an Ed25519 identity key: its Montgomery point, or,
/// when the bytes are no Edwards point, a hash of them.
pub open spec fn identity_dh_public(identity: Seq<u8>) -> Seq<u8> {
    match montgomery_of(identity) {
        Some(m) => m,
        None => sha256_of(conversion_label() + identity),
    }
}

/// The X3DH key derivation over the concatenated DH outputs.
pub open spec fn x3dh_kdf(dh1: Seq<u8>, dh2: Seq<u8>, dh3: Seq<u8>, dh4: Option<Seq<u8>>) -> Seq<u8> {
    let tail = match dh4 {
        Some(d) => d,
        None => Seq::empty(),
    };
    hkdf_sha256(x3dh_padding() + dh1 + dh2 + dh3 + tail, Seq::new(32, |i: int| 0u8), x3dh_info(), 32)
}

/// The secret the initiator derives with identity secret `our_identity`,
/// ephemeral secret `ephemeral`, and the bundle's keys.
pub open spec fn initiator_secret(
    our_identity: Seq<u8>,
    ephemeral: Seq<u8>,
    their_identity: Seq<u8>,
    their_signed_pre_key: Seq<u8>,
    their_one_time_pre_key: Option<Seq<u8>>,
) -> Seq<u8> {
    x3dh_kdf(
        x25519(identity_dh_secret(our_identity), their_signed_pre_key),
        x25519(ephemeral, identity_dh_public(their_identity)),
        x25519(ephemeral, their_signed_pre_key),
        match their_one_time_pre_key {
            Some(k) => Some(x25519(ephemeral, k)),
            None => None,
        },
    )
}

/// The secret the responder derives from its own secrets and the
/// initiator's public identity and ephemeral keys.
pub open spec fn responder_secret(
    our_identity: Seq<u8>,
    our_signed_pre_key: Seq<u8>,
    our_one_time_pre_key: Option<Seq<u8>>,
    their_identity: Seq<u8>,
    their_ephemeral: Seq<u8>,
) -> Seq<u8> {
    x3dh_kdf(
        x25519(our_signed_pre_key, identity_dh_public(their_identity)),
        x25519(identity_dh_secret(our_identity), their_ephemeral),
        x25519(our_signed_pre_key, their_ephemeral),
        match our_one_time_pre_key {
            Some(k) => Some(x25519(k, their_ephemeral)),
            None => None,
        },
    )
}

/// What the initiator learns from X3DH.
pub struct X3dhResult {
    pub shared_secret: [u8; 32],
    pub ephemeral_public_key: [u8; 32],
    pub used_pre_key_id: Option<u32>,
}

fn x3dh_info_bytes() -> (r: Vec<u8>)
    ensures
        r@ == x3dh_info(),
{
    let v: Vec<u8> = vec![88u8, 51u8, 68u8, 72u8];
    assert(v@ =~= x3dh_info());
    v
}

fn kdf(input: &[u8]) -> (r: [u8; 32])
    ensures
        r@ == hkdf_sha256(input@, Seq::new(32, |i: int| 0u8), x3dh_info(), 32),
{
    let salt: [u8; 32] = [0u8; 32];
    assert(salt@ =~= Seq::new(32, |i: int| 0u8));
    let info = x3dh_info_bytes();
    match SignalHkdf::derive_secrets(input, &salt, &info, 32) {
        Ok(out) => copy_32(&out, 0),
        Err(_) => {
            assert(false);
            [0u8; 32]
        },
    }
}

/// Appends the padding and the three DH outputs, and the fourth if any,
/// then derives the shared secret.
fn combine(dh1: &[u8; 32], dh2: &[u8; 32], dh3: &[u8; 32], dh4: Option<[u8; 32]>) -> (r: [u8; 32])
    ensures
        r@ == x3dh_kdf(
            dh1@,
            dh2@,
            dh3@,
            match dh4 {
                Some(d) => Some(d@),
                None => None,
            },
        ),
{
    let mut data: Vec<u8> = Vec::new();
    let padding: [u8; 32] = [0xFFu8; 32];
    assert(padding@ =~= x3dh_padding());
    push_bytes(&mut data, &padding);
    push_bytes(&mut data, dh1);
    push_bytes(&mut data, dh2);
    push_bytes(&mut data, dh3);
    let ghost head = data@;
    match dh4 {
        Some(d) => push_bytes(&mut data, &d),
        None => {},
    }
    assert(data@ =~= head + match dh4 {
        Some(d) => d@,
        None => Seq::<u8>::empty(),
    });
    kdf(&data)
}

fn conversion_label_bytes() -> (r: Vec<u8>)
    ensures
        r@ == conversion_label(),
{
    let v: Vec<u8> = vec![
        88u8, 51u8, 68u8, 72u8, 95u8, 73u8, 68u8, 69u8, 78u8, 84u8, 73u8, 84u8, 89u8, 95u8, 67u8,
        79u8, 78u8, 86u8, 69u8, 82u8, 83u8, 73u8, 79u8, 78u8,
    ];
    assert(v@ =~= conversion_label());
    v
}

/// The X25519 form of an Ed25519 identity key.
fn identity_to_x25519(identity_key: &IdentityPublicKey) -> (r: [u8; 32])
    ensures
        r@ == identity_dh_public(identity_key@),
{
    let bytes = identity_key.as_bytes();
    match edwards_to_montgomery(&bytes) {
        Some(m) => m,
        None => {
            let mut data = conversion_label_bytes();
            push_bytes(&mut data, &bytes);
            sha256(&data)
        },
    }
}

/// X3DH as the initiator, with `ephemeral_key` as the fresh ephemeral key.
/// Fails with `VerificationFailure` when the bundle's signature does not
/// verify.
pub fn x3dh_initiate_with(
    our_identity_key: &IdentityKeyPair,
    their_bundle: &PreKeyBundle,
    ephemeral_key: &DhKeyPair,
) -> (r: Result<X3dhResult, SignalError>)
    requires
        our_identity_key.wf(),
    ensures
        r is Ok <==> their_bundle.signature_valid(),
        r matches Err(e) ==> e == SignalError::VerificationFailure,
        r matches Ok(res) ==> {
            &&& res.shared_secret@ == initiator_secret(
                our_identity_key.signing_secret(),
                ephemeral_key.secret_bytes(),
                their_bundle.identity_key@,
                their_bundle.signed_pre_key_public@,
                opt_bytes(their_bundle.pre_key_public),
            )
            &&& res.ephemeral_public_key@ == ephemeral_key.public_bytes()
            &&& res.used_pre_key_id == match their_bundle.pre_key_public {
                Some(_) => their_bundle.pre_key_id,
                None => None,
            }
        },
{
    their_bundle.verify()?;
    let dh1 = our_identity_key.dh_agreement(&their_bundle.signed_pre_key_public);
    let their_identity_dh = identity_to_x25519(&their_bundle.identity_key);
    let dh2 = ephemeral_key.dh_agreement(&their_identity_dh);
    let dh3 = ephemeral_key.dh_agreement(&their_bundle.signed_pre_key_public);
    let (dh4, used_pre_key_id) = match &their_bundle.pre_key_public {
        Some(opk) => (Some(ephemeral_key.dh_agreement(opk)), their_bundle.pre_key_id),
        None => (None, None),
    };
    let shared_secret = combine(&dh1, &dh2, &dh3, dh4);
    Ok(X3dhResult { shared_secret, ephemeral_public_key: ephemeral_key.public_key(), used_pre_key_id })
}

/// X3DH as the initiator with a freshly generated ephemeral key. The shared
/// secret is the one `x3dh_initiate_with` derives for that key.
pub fn x3dh_initiate(our_identity_key: &IdentityKeyPair, their_bundle: &PreKeyBundle) -> (r: Result<
    X3dhResult,
    SignalError,
>)
    requires
        our_identity_key.wf(),
    ensures
        r is Ok <==> their_bundle.signature_valid(),
        r matches Err(e) ==> e == SignalError::VerificationFailure,
        r matches Ok(res) ==> exists|ephemeral: Seq<u8>|
            {
                &&& ephemeral.len() == 32
                &&& res.ephemeral_public_key@ == x25519_base(ephemeral)
                &&& res.shared_secret@ == #[trigger] initiator_secret(
                    our_identity_key.signing_secret(),
                    ephemeral,
                    their_bundle.identity_key@,
                    their_bundle.signed_pre_key_public@,
                    opt_bytes(their_bundle.pre_key_public),
                )
            },
        r matches Ok(res) ==> res.used_pre_key_id == match their_bundle.pre_key_public {
            Some(_) => their_bundle.pre_key_id,
            None => None,
        },
{
    let ephemeral_key = DhKeyPair::generate();
    x3dh_initiate_with(our_identity_key, their_bundle, &ephemeral_key)
}

/// X3DH as the responder: the same four agreements with the roles swapped.
pub fn x3dh_respond(
    our_identity_key: &IdentityKeyPair,
    our_signed_pre_key: &DhKeyPair,
    our_one_time_pre_key: Option<&DhKeyPair>,
    their_identity_key: &IdentityPublicKey,
    their_ephemeral_key: &[u8; 32],
) -> (r: Result<[u8; 32], SignalError>)
    requires
        our_identity_key.wf(),
    ensures
        r matches Ok(s) && s@ == responder_secret(
            our_identity_key.signing_secret(),
            our_signed_pre_key.secret_bytes(),
            match our_one_time_pre_key {
                Some(k) => Some(k.secret_bytes()),
                None => None,
            },
            their_identity_key@,
            their_ephemeral_key@,
        ),
{
    let their_identity_dh = identity_to_x25519(their_identity_key);
    let dh1 = our_signed_pre_key.dh_agreement(&their_identity_dh);
    let dh2 = our_identity_key.dh_agreement(their_ephemeral_key);
    let dh3 = our_signed_pre_key.dh_agreement(their_ephemeral_key);
    let dh4 = match our_one_time_pre_key {
        Some(opk) => Some(opk.dh_agreement(their_ephemeral_key)),
        None => None,
    };
    Ok(combine(&dh1, &dh2, &dh3, dh4))
}

/// Agreement of X3DH: initiator and responder derive the same shared
/// secret from matching key material, given that each identity key's X25519
/// form (its Montgomery point) is the public key of the identity's
/// Diffie-Hellman secret. The agreements of the signed, one-time and
/// ephemeral keys come from the key pairs themselves.
pub proof fn lemma_x3dh_agreement(
    initiator: IdentityKeyPair,
    responder: IdentityKeyPair,
    signed_pre_key: DhKeyPair,
    one_time_pre_key: Option<DhKeyPair>,
    ephemeral: DhKeyPair,
)
    requires
        initiator.wf(),
        responder.wf(),
        signed_pre_key.wf(),
        one_time_pre_key matches Some(k) ==> k.wf(),
        ephemeral.wf(),
        identity_dh_public(initiator.verifying_bytes()) == x25519_base(
            identity_dh_secret(initiator.signing_secret()),
        ),
        identity_dh_public(responder.verifying_bytes()) == x25519_base(
            identity_dh_secret(responder.signing_secret()),
        ),
    ensures
        initiator_secret(
            initiator.signing_secret(),
            ephemeral.secret_bytes(),
            responder.verifying_bytes(),
            signed_pre_key.public_bytes(),
            match one_time_pre_key {
                Some(k) => Some(k.public_bytes()),
                None => None,
            },
        ) == responder_secret(
            responder.signing_secret(),
            signed_pre_key.secret_bytes(),
            match one_time_pre_key {
                Some(k) => Some(k.secret_bytes()),
                None => None,
            },
            initiator.verifying_bytes(),
            ephemeral.public_bytes(),
        ),
{
    let ia = identity_dh_secret(initiator.signing_secret());
    let ib = identity_dh_secret(responder.signing_secret());
    let e = ephemeral.secret_bytes();
    assert(x25519(ia, signed_pre_key.public_bytes()) == x25519(signed_pre_key.secret_bytes(), x25519_base(ia)));
    assert(x25519(ib, ephemeral.public_bytes()) == x25519(e, x25519_base(ib)));
    assert(x25519(e, signed_pre_key.public_bytes()) == x25519(signed_pre_key.secret_bytes(), x25519_base(e)));
    match one_time_pre_key {
        Some(k) => {
            assert(x25519(e, k.public_bytes()) == x25519(k.secret_bytes(), x25519_base(e)));
        },
        None => {},
    }
}

/// Wire form of the optional one-time pre-key id of an initial message.
pub open spec fn pre_key_id_field(id: Option<u32>) -> Seq<u8> {
    match id {
        Some(i) => seq![1u8] + be32(i),
        None => seq![0u8],
    }
}

/// Wire form of an initial message.
pub open spec fn initial_message_bytes(m: InitialMessage) -> Seq<u8> {
    seq![m.version] + m.identity_key@ + m.ephemeral_key@ + pre_key_id_field(m.pre_key_id) + be32(
        m.signed_pre_key_id,
    ) + be32(m.encrypted_message@.len() as u32) + m.encrypted_message@
}

/// Length of the fixed part of an initial message, up to its length field.
pub open spec fn initial_header_len(d: Seq<u8>) -> int {
    if d.len() > 65 && d[65] == 1u8 {
        78
    } else {
        74
    }
}

/// The body length that an initial message announces.
pub open spec fn initial_body_len(d: Seq<u8>) -> int {
    read_be32(d.subrange(initial_header_len(d) - 4, initial_header_len(d))) as int
}

/// Whether the bytes hold every field of an initial message.
pub open spec fn initial_complete(d: Seq<u8>) -> bool {
    &&& d.len() >= 70
    &&& d.len() >= initial_header_len(d)
    &&& d.len() >= initial_header_len(d) + initial_body_len(d)
}

/// The message `m` is what the bytes `d` hold.
pub open spec fn initial_decodes_to(d: Seq<u8>, m: InitialMessage) -> bool {
    let h = initial_header_len(d);
    &&& m.version == d[0]
    &&& m.identity_key@ == d.subrange(1, 33)
    &&& m.ephemeral_key@ == d.subrange(33, 65)
    &&& m.pre_key_id == if d[65] == 1u8 {
        Some(read_be32(d.subrange(66, 70)))
    } else {
        None
    }
    &&& m.signed_pre_key_id == read_be32(d.subrange(h - 8, h - 4))
    &&& m.encrypted_message@ == d.subrange(h, h + initial_body_len(d))
}

/// The first message of a conversation: the initiator's X3DH public data
/// and the first ratchet message.
pub struct InitialMessage {
    pub version: u8,
    pub identity_key: IdentityPublicKey,
    pub ephemeral_key: [u8; 32],
    pub pre_key_id: Option<u32>,
    pub signed_pre_key_id: u32,
    pub encrypted_message: Vec<u8>,
}

impl InitialMessage {
    pub fn new(
        identity_key: IdentityPublicKey,
        ephemeral_key: [u8; 32],
        pre_key_id: Option<u32>,
        signed_pre_key_id: u32,
        encrypted_message: Vec<u8>,
    ) -> (r: Self)
        ensures
            r.version == X3DH_VERSION,
            r.identity_key == identity_key,
            r.ephemeral_key == ephemeral_key,
            r.pre_key_id == pre_key_id,
            r.signed_pre_key_id == signed_pre_key_id,
            r.encrypted_message == encrypted_message,
    {
        InitialMessage {
            version: X3DH_VERSION,
            identity_key,
            ephemeral_key,
            pre_key_id,
            signed_pre_key_id,
            encrypted_message,
        }
    }

    /// The body's length must fit its 4-byte length field.
    pub fn serialize(&self) -> (r: Vec<u8>)
        requires
            self.encrypted_message@.len() <= u32::MAX,
        ensures
            r@ == initial_message_bytes(*self),
    {
        let mut data: Vec<u8> = Vec::new();
        data.push(self.version);
        push_bytes(&mut data, &self.identity_key.as_bytes());
        push_bytes(&mut data, &self.ephemeral_key);
        let ghost head = data@;
        match self.pre_key_id {
            Some(id) => {
                data.push(1u8);
                push_be32(&mut data, id);
            },
            None => {
                data.push(0u8);
            },
        }
        assert(data@ =~= head + pre_key_id_field(self.pre_key_id));
        push_be32(&mut data, self.signed_pre_key_id);
        push_be32(&mut data, self.encrypted_message.len() as u32);
        push_bytes(&mut data, self.encrypted_message.as_slice());
        assert(data@ =~= initial_message_bytes(*self));
        data
    }

    /// Reads an initial message. Fails with `MalformedMessage` when the bytes
    /// are too short for what they announce or carry another version; bytes
    /// that are complete fail with `InvalidKey` when the identity key is not
    /// a valid Ed25519 key.
    pub fn deserialize(data: &[u8]) -> (r: Result<Self, SignalError>)
        ensures
            r is Ok <==> initial_complete(data@) && data@[0] == X3DH_VERSION && ed25519_key_ok(
                data@.subrange(1, 33),
            ),
            r matches Ok(m) ==> initial_decodes_to(data@, m),
            r matches Err(e) ==> (e == SignalError::MalformedMessage || e == SignalError::InvalidKey),
            r matches Err(e) ==> (e == SignalError::InvalidKey ==> !ed25519_key_ok(
                data@.subrange(1, 33),
            )),
            !initial_complete(data@) || data@[0] != X3DH_VERSION ==> r == Err::<
                InitialMessage,
                SignalError,
            >(SignalError::MalformedMessage),
    {
        if data.len() < 70 {
            return Err(SignalError::MalformedMessage);
        }
        let version = data[0];
        if version != X3DH_VERSION {
            return Err(SignalError::MalformedMessage);
        }
        let has_pre_key = data[65] == 1u8;
        let mut offset: usize = 66;
        let pre_key_id = if has_pre_key {
            let id = get_be32(data, offset);
            offset = offset + 4;
            Some(id)
        } else {
            None
        };
        if data.len() < offset + 8 {
            return Err(SignalError::MalformedMessage);
        }
        let signed_pre_key_id = get_be32(data, offset);
        offset = offset + 4;
        let msg_len = get_be32(data, offset) as usize;
        offset = offset + 4;
        if data.len() - offset < msg_len {
            return Err(SignalError::MalformedMessage);
        }
        let identity_bytes = copy_32(data, 1);
        let identity_key = IdentityPublicKey::from_bytes(&identity_bytes)?;
        let ephemeral_key = copy_32(data, 33);
        let encrypted_message = copy_range(data, offset, offset + msg_len);
        Ok(InitialMessage {
            version,
            identity_key,
            ephemeral_key,
            pre_key_id,
            signed_pre_key_id,
            encrypted_message,
        })
    }
}

/// Reading back a serialized initial message gives the same message, when
/// the body fits its length field: the bytes hold every field, carry the
/// message's version and identity key, and decode to its fields.
pub proof fn lemma_initial_message_round_trip(m: InitialMessage, x: InitialMessage)
    requires
        m.encrypted_message@.len() <= u32::MAX,
    ensures
        initial_complete(initial_message_bytes(m)),
        initial_message_bytes(m)[0] == m.version,
        initial_message_bytes(m).subrange(1, 33) == m.identity_key@,
        initial_decodes_to(initial_message_bytes(m), x) ==> {
            &&& x.version == m.version
            &&& x.identity_key@ == m.identity_key@
            &&& x.ephemeral_key == m.ephemeral_key
            &&& x.pre_key_id == m.pre_key_id
            &&& x.signed_pre_key_id == m.signed_pre_key_id
            &&& x.encrypted_message@ == m.encrypted_message@
        },
{
    let d = initial_message_bytes(m);
    let n = m.encrypted_message@.len();
    m.identity_key.lemma_len();
    let h: int = if m.pre_key_id is Some { 78 } else { 74 };
    lemma_be32_round_trip(m.signed_pre_key_id);
    lemma_be32_round_trip(n as u32);
    assert(d.subrange(1, 33) =~= m.identity_key@);
    assert(d.subrange(33, 65) =~= m.ephemeral_key@);
    match m.pre_key_id {
        Some(id) => {
            lemma_be32_round_trip(id);
            assert(d[65] == 1u8);
            assert(d.subrange(66, 70) =~= be32(id));
        },
        None => {
            assert(d[65] == 0u8);
        },
    }
    assert(initial_header_len(d) == h);
    assert(d.subrange(h - 8, h - 4) =~= be32(m.signed_pre_key_id));
    assert(d.subrange(h - 4, h) =~= be32(n as u32));
    assert(d.subrange(h, h + n) =~= m.encrypted_message@);
    if initial_decodes_to(d, x) {
        assert(x.ephemeral_key@ =~= m.ephemeral_key@);
        assert(x.ephemeral_key =~= m.ephemeral_key);
    }
}

} // verus!
