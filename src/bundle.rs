//! The pre-key bundle that an endpoint publishes for others to start a
//! session with it.
use vstd::prelude::*;

use crate::bytes::{
    be32, copy_32, copy_64, get_be32, lemma_be32_round_trip, push_be32, push_bytes, read_be32,
};
use crate::error::SignalError;
use crate::keys::IdentityPublicKey;
use crate::primitives::{ed25519_accepts, ed25519_key_ok};

verus! {

/// A publishable snapshot of an endpoint's pre-keys.
#[derive(Clone)]
pub struct PreKeyBundle {
    pub registration_id: u32,
    pub device_id: u32,
    pub pre_key_id: Option<u32>,
    pub pre_key_public: Option<[u8; 32]>,
    pub signed_pre_key_id: u32,
    pub signed_pre_key_public: [u8; 32],
    pub signed_pre_key_signature: [u8; 64],
    pub identity_key: IdentityPublicKey,
}

/// Wire form of the optional one-time pre-key: a flag, then id and key.
pub open spec fn pre_key_field(id: Option<u32>, public: Option<[u8; 32]>) -> Seq<u8> {
    match (id, public) {
        (Some(i), Some(k)) => seq![1u8] + be32(i) + k@,
        _ => seq![0u8],
    }
}

/// Wire form of a bundle.
pub open spec fn bundle_bytes(b: PreKeyBundle) -> Seq<u8> {
    be32(b.registration_id) + be32(b.device_id) + pre_key_field(b.pre_key_id, b.pre_key_public)
        + be32(b.signed_pre_key_id) + b.signed_pre_key_public@ + b.signed_pre_key_signature@
        + b.identity_key@
}

/// Whether the bytes announce a one-time pre-key.
pub open spec fn announces_pre_key(d: Seq<u8>) -> bool {
    d.len() >= 9 && d[8] == 1u8
}

/// Where the signed pre-key part starts.
pub open spec fn signed_part_offset(d: Seq<u8>) -> int {
    if announces_pre_key(d) {
        45
    } else {
        9
    }
}

/// Whether the bytes are long enough for every field they announce.
pub open spec fn bundle_complete(d: Seq<u8>) -> bool {
    d.len() >= 9 && d.len() >= signed_part_offset(d) + 132
}

/// The bundle `b` is what the bytes `d` hold.
pub open spec fn bundle_decodes_to(d: Seq<u8>, b: PreKeyBundle) -> bool {
    let o = signed_part_offset(d);
    &&& b.registration_id == read_be32(d.subrange(0, 4))
    &&& b.device_id == read_be32(d.subrange(4, 8))
    &&& if announces_pre_key(d) {
        &&& b.pre_key_id == Some(read_be32(d.subrange(9, 13)))
        &&& b.pre_key_public matches Some(k) && k@ == d.subrange(13, 45)
    } else {
        b.pre_key_id is None && b.pre_key_public is None
    }
    &&& b.signed_pre_key_id == read_be32(d.subrange(o, o + 4))
    &&& b.signed_pre_key_public@ == d.subrange(o + 4, o + 36)
    &&& b.signed_pre_key_signature@ == d.subrange(o + 36, o + 100)
    &&& b.identity_key@ == d.subrange(o + 100, o + 132)
}

impl PreKeyBundle {
    /// The signed pre-key's signature verifies under the identity key.
    pub open spec fn signature_valid(&self) -> bool {
        ed25519_accepts(self.identity_key@, self.signed_pre_key_public@, self.signed_pre_key_signature@)
    }

    /// Checks the signature over the signed pre-key.
    pub fn verify(&self) -> (r: Result<(), SignalError>)
        ensures
            r is Ok <==> self.signature_valid(),
            r matches Err(e) ==> e == SignalError::VerificationFailure,
    {
        self.identity_key.verify(&self.signed_pre_key_public, &self.signed_pre_key_signature)
    }

    pub fn serialize(&self) -> (r: Vec<u8>)
        ensures
            r@ == bundle_bytes(*self),
    {
        let mut data: Vec<u8> = Vec::new();
        push_be32(&mut data, self.registration_id);
        push_be32(&mut data, self.device_id);
        let ghost head = data@;
        match (self.pre_key_id, self.pre_key_public) {
            (Some(id), Some(key)) => {
                data.push(1u8);
                push_be32(&mut data, id);
                push_bytes(&mut data, &key);
            },
            _ => {
                data.push(0u8);
            },
        }
        assert(data@ =~= head + pre_key_field(self.pre_key_id, self.pre_key_public));
        push_be32(&mut data, self.signed_pre_key_id);
        push_bytes(&mut data, &self.signed_pre_key_public);
        push_bytes(&mut data, &self.signed_pre_key_signature);
        push_bytes(&mut data, &self.identity_key.as_bytes());
        data
    }

    /// Reads a bundle. Fails with `MalformedMessage` when the bytes are too
    /// short for the fields they announce, and with `InvalidKey` when the
    /// identity key is not a valid Ed25519 key. Bytes past the end are ignored.
    pub fn deserialize(data: &[u8]) -> (r: Result<Self, SignalError>)
        ensures
            r is Ok <==> bundle_complete(data@) && ed25519_key_ok(
                data@.subrange(signed_part_offset(data@) + 100, signed_part_offset(data@) + 132),
            ),
            r matches Ok(b) ==> bundle_decodes_to(data@, b),
            r matches Err(e) ==> (e == SignalError::MalformedMessage <==> !bundle_complete(data@)),
            r matches Err(e) ==> (e == SignalError::MalformedMessage || e == SignalError::InvalidKey),
    {
        if data.len() < 9 {
            return Err(SignalError::MalformedMessage);
        }
        let registration_id = get_be32(data, 0);
        let device_id = get_be32(data, 4);
        let has_pre_key = data[8] == 1u8;
        let offset: usize = if has_pre_key { 45 } else { 9 };
        if data.len() < offset + 132 {
            return Err(SignalError::MalformedMessage);
        }
        let (pre_key_id, pre_key_public) = if has_pre_key {
            (Some(get_be32(data, 9)), Some(copy_32(data, 13)))
        } else {
            (None, None)
        };
        let signed_pre_key_id = get_be32(data, offset);
        let signed_pre_key_public = copy_32(data, offset + 4);
        let signed_pre_key_signature = copy_64(data, offset + 36);
        let ik_bytes = copy_32(data, offset + 100);
        let identity_key = IdentityPublicKey::from_bytes(&ik_bytes)?;
        Ok(PreKeyBundle {
            registration_id,
            device_id,
            pre_key_id,
            pre_key_public,
            signed_pre_key_id,
            signed_pre_key_public,
            signed_pre_key_signature,
            identity_key,
        })
    }
}

/// Reading back a serialized bundle gives the same bundle, when its two
/// pre-key fields are both present or both absent and its identity key is
/// a valid Ed25519 key.
pub proof fn lemma_bundle_round_trip(b: PreKeyBundle, x: PreKeyBundle)
    requires
        b.pre_key_id is Some == b.pre_key_public is Some,
    ensures
        bundle_complete(bundle_bytes(b)),
        bundle_bytes(b).subrange(
            signed_part_offset(bundle_bytes(b)) + 100,
            signed_part_offset(bundle_bytes(b)) + 132,
        ) == b.identity_key@,
        bundle_decodes_to(bundle_bytes(b), x) ==> {
            &&& x.registration_id == b.registration_id
            &&& x.device_id == b.device_id
            &&& x.pre_key_id == b.pre_key_id
            &&& x.pre_key_public == b.pre_key_public
            &&& x.signed_pre_key_id == b.signed_pre_key_id
            &&& x.signed_pre_key_public == b.signed_pre_key_public
            &&& x.signed_pre_key_signature == b.signed_pre_key_signature
            &&& x.identity_key@ == b.identity_key@
        },
{
    let d = bundle_bytes(b);
    let pk = pre_key_field(b.pre_key_id, b.pre_key_public);
    let o: int = if b.pre_key_id is Some { 45 } else { 9 };
    b.identity_key.lemma_len();
    lemma_be32_round_trip(b.registration_id);
    lemma_be32_round_trip(b.device_id);
    lemma_be32_round_trip(b.signed_pre_key_id);
    assert(d.subrange(0, 4) =~= be32(b.registration_id));
    assert(d.subrange(4, 8) =~= be32(b.device_id));
    assert(d[8] == pk[0]);
    assert(signed_part_offset(d) == o);
    match (b.pre_key_id, b.pre_key_public) {
        (Some(i), Some(k)) => {
            lemma_be32_round_trip(i);
            assert(d.subrange(9, 13) =~= be32(i));
            assert(d.subrange(13, 45) =~= k@);
        },
        _ => {},
    }
    assert(d.subrange(o, o + 4) =~= be32(b.signed_pre_key_id));
    assert(d.subrange(o + 4, o + 36) =~= b.signed_pre_key_public@);
    assert(d.subrange(o + 36, o + 100) =~= b.signed_pre_key_signature@);
    assert(d.subrange(o + 100, o + 132) =~= b.identity_key@);
    if bundle_decodes_to(d, x) {
        assert(x.signed_pre_key_public@ =~= b.signed_pre_key_public@);
        assert(x.signed_pre_key_signature@ =~= b.signed_pre_key_signature@);
        match (b.pre_key_id, b.pre_key_public) {
            (Some(i), Some(k)) => {
                assert(x.pre_key_public->0@ =~= k@);
            },
            _ => {},
        }
    }
}

} // verus!
