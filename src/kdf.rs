//! Key derivation for the ratchet and authenticated encryption of messages.
use vstd::prelude::*;

use crate::error::SignalError;
use crate::primitives::{
    aead_open, aead_seal, aes_gcm_seal, hkdf, hkdf_sha256, hmac, hmac_sha256, random_bytes_32, wipe,
    AEAD_MAX_PLAINTEXT, HKDF_MAX_OUTPUT,
};

verus! {

/// HKDF label of the root-key ratchet step.
pub open spec fn root_info() -> Seq<u8> {
    seq![87u8, 104u8, 105u8, 115u8, 112u8, 101u8, 114u8, 82u8, 97u8, 116u8, 99u8, 104u8, 101u8, 116u8]
}

/// HKDF label of message-key expansion.
pub open spec fn message_keys_info() -> Seq<u8> {
    seq![
        87u8, 104u8, 105u8, 115u8, 112u8, 101u8, 114u8, 77u8, 101u8, 115u8, 115u8, 97u8, 103u8,
        101u8, 75u8, 101u8, 121u8, 115u8,
    ]
}

fn root_info_bytes() -> (r: Vec<u8>)
    ensures
        r@ == root_info(),
{
    let v: Vec<u8> = vec![87u8, 104u8, 105u8, 115u8, 112u8, 101u8, 114u8, 82u8, 97u8, 116u8, 99u8, 104u8, 101u8, 116u8];
    assert(v@ =~= root_info());
    v
}

fn message_keys_info_bytes() -> (r: Vec<u8>)
    ensures
        r@ == message_keys_info(),
{
    let v: Vec<u8> = vec![
        87u8, 104u8, 105u8, 115u8, 112u8, 101u8, 114u8, 77u8, 101u8, 115u8, 115u8, 97u8, 103u8,
        101u8, 75u8, 101u8, 121u8, 115u8,
    ];
    assert(v@ =~= message_keys_info());
    v
}

/// The 64 bytes that a root-key step derives from the root key and a DH output.
pub open spec fn root_step_output(root_key: Seq<u8>, dh_output: Seq<u8>) -> Seq<u8> {
    hkdf_sha256(dh_output, root_key, root_info(), 64)
}

/// The new root key of a root-key step.
pub open spec fn next_root_key(root_key: Seq<u8>, dh_output: Seq<u8>) -> Seq<u8> {
    root_step_output(root_key, dh_output).subrange(0, 32)
}

/// The new chain key of a root-key step.
pub open spec fn new_chain_key(root_key: Seq<u8>, dh_output: Seq<u8>) -> Seq<u8> {
    root_step_output(root_key, dh_output).subrange(32, 64)
}

/// The chain key that follows `chain_key`: HMAC(chain_key, 0x02).
pub open spec fn next_chain_key(chain_key: Seq<u8>) -> Seq<u8> {
    hmac_sha256(chain_key, seq![2u8])
}

/// The 80 bytes of message keys of a chain key: HKDF of HMAC(chain_key, 0x01).
pub open spec fn message_key_material(chain_key: Seq<u8>) -> Seq<u8> {
    hkdf_sha256(hmac_sha256(chain_key, seq![1u8]), Seq::empty(), message_keys_info(), 80)
}

pub open spec fn cipher_key_of(chain_key: Seq<u8>) -> Seq<u8> {
    message_key_material(chain_key).subrange(0, 32)
}

pub open spec fn mac_key_of(chain_key: Seq<u8>) -> Seq<u8> {
    message_key_material(chain_key).subrange(32, 64)
}

pub open spec fn iv_of(chain_key: Seq<u8>) -> Seq<u8> {
    message_key_material(chain_key).subrange(64, 80)
}

/// The AEAD nonce of a message key: the first 12 bytes of its IV.
pub open spec fn nonce_of(chain_key: Seq<u8>) -> Seq<u8> {
    iv_of(chain_key).subrange(0, 12)
}

/// The chain key after `n` steps from `chain_key`.
pub open spec fn chain_advance(chain_key: Seq<u8>, n: nat) -> Seq<u8>
    decreases n,
{
    if n == 0 {
        chain_key
    } else {
        next_chain_key(chain_advance(chain_key, (n - 1) as nat))
    }
}

/// HKDF-based derivation of the ratchet's keys.
pub struct SignalHkdf;

/// Keys for one message, and the chain key that follows.
pub struct MessageKeys {
    pub cipher_key: [u8; 32],
    pub mac_key: [u8; 32],
    pub iv: [u8; 16],
    pub next_chain_key: [u8; 32],
}

impl Drop for MessageKeys {
    /// The keys are wiped when they go away.
    fn drop(&mut self)
        opens_invariants none
        no_unwind
    {
        wipe(&mut self.cipher_key);
        wipe(&mut self.mac_key);
        wipe(&mut self.iv);
        wipe(&mut self.next_chain_key);
    }
}

impl MessageKeys {
    /// The keys are those that `chain_key` yields.
    pub open spec fn derived_from(&self, chain_key: Seq<u8>) -> bool {
        &&& self.cipher_key@ == cipher_key_of(chain_key)
        &&& self.mac_key@ == mac_key_of(chain_key)
        &&& self.iv@ == iv_of(chain_key)
        &&& self.next_chain_key@ == next_chain_key(chain_key)
    }
}

impl SignalHkdf {
    /// HKDF-SHA256 of `input_key_material` with `salt` and `info`.
    pub fn derive_secrets(input_key_material: &[u8], salt: &[u8], info: &[u8], output_length: usize)
        -> (r: Result<Vec<u8>, SignalError>)
        ensures
            r is Ok <==> output_length <= HKDF_MAX_OUTPUT,
            r matches Ok(out) ==> out@ == hkdf_sha256(
                input_key_material@,
                salt@,
                info@,
                output_length as nat,
            ) && out@.len() == output_length,
            r matches Err(e) ==> e == SignalError::KeyDerivationFailure,
    {
        match hkdf(input_key_material, salt, info, output_length) {
            Some(out) => Ok(out),
            None => Err(SignalError::KeyDerivationFailure),
        }
    }

    /// One root-key step: the new root key and a new chain key.
    pub fn derive_root_key(root_key: &[u8; 32], dh_output: &[u8; 32]) -> (r: Result<
        ([u8; 32], [u8; 32]),
        SignalError,
    >)
        ensures
            r matches Ok((root, chain)) && root@ == next_root_key(root_key@, dh_output@)
                && chain@ == new_chain_key(root_key@, dh_output@),
    {
        let info = root_info_bytes();
        let output = Self::derive_secrets(dh_output, root_key, &info, 64)?;
        let new_root = crate::bytes::copy_32(&output, 0);
        let chain = crate::bytes::copy_32(&output, 32);
        Ok((new_root, chain))
    }

    /// The message keys of `chain_key` and the chain key that follows.
    pub fn derive_message_keys(chain_key: &[u8; 32]) -> (r: Result<MessageKeys, SignalError>)
        ensures
            r matches Ok(k) && k.derived_from(chain_key@),
    {
        let next = hmac(chain_key, &[2u8]);
        let seed = hmac(chain_key, &[1u8]);
        let info = message_keys_info_bytes();
        let empty: [u8; 0] = [];
        let expanded = Self::derive_secrets(&seed, &empty, &info, 80)?;
        let cipher_key = crate::bytes::copy_32(&expanded, 0);
        let mac_key = crate::bytes::copy_32(&expanded, 32);
        let mut iv: [u8; 16] = [0u8; 16];
        let mut i: usize = 0;
        while i < 16
            invariant
                expanded@.len() == 80,
                i <= 16,
                forall|k: int| 0 <= k < i ==> iv@[k] == expanded@[64 + k],
            decreases 16 - i,
        {
            iv[i] = expanded[64 + i];
            i = i + 1;
        }
        assert(iv@ =~= expanded@.subrange(64, 80));
        assert(seq![2u8] =~= [2u8]@);
        assert(seq![1u8] =~= [1u8]@);
        assert(Seq::<u8>::empty() =~= empty@);
        Ok(MessageKeys { cipher_key, mac_key, iv, next_chain_key: next })
    }
}

/// AES-256-GCM encryption of message bodies.
pub struct SignalCipher;

impl SignalCipher {
    pub fn encrypt(key: &[u8; 32], nonce: &[u8; 12], plaintext: &[u8]) -> (r: Result<
        Vec<u8>,
        SignalError,
    >)
        ensures
            r is Ok <==> plaintext@.len() <= AEAD_MAX_PLAINTEXT,
            r matches Ok(c) ==> c@ == aes_gcm_seal(key@, nonce@, plaintext@),
            r matches Ok(c) ==> c@.len() == plaintext@.len() + 16,
            r matches Err(e) ==> e == SignalError::EncryptionFailure,
    {
        match aead_seal(key, nonce, plaintext) {
            Some(c) => Ok(c),
            None => Err(SignalError::EncryptionFailure),
        }
    }

    /// Succeeds exactly on a ciphertext sealed under `key` and `nonce`, with
    /// the plaintext that was sealed.
    pub fn decrypt(key: &[u8; 32], nonce: &[u8; 12], ciphertext: &[u8]) -> (r: Result<
        Vec<u8>,
        SignalError,
    >)
        ensures
            r matches Ok(p) ==> ciphertext@ == aes_gcm_seal(key@, nonce@, p@),
            r matches Ok(p) ==> forall|m: Seq<u8>|
                m.len() <= AEAD_MAX_PLAINTEXT && #[trigger] aes_gcm_seal(key@, nonce@, m)
                    == ciphertext@ ==> p@ == m,
            r is Err ==> forall|m: Seq<u8>|
                m.len() <= AEAD_MAX_PLAINTEXT ==> #[trigger] aes_gcm_seal(key@, nonce@, m)
                    != ciphertext@,
            r matches Err(e) ==> e == SignalError::DecryptionFailure,
    {
        match aead_open(key, nonce, ciphertext) {
            Some(p) => Ok(p),
            None => Err(SignalError::DecryptionFailure),
        }
    }

    /// A nonce from the system's random generator.
    pub fn generate_nonce() -> (r: [u8; 12]) {
        let bytes = random_bytes_32();
        let mut nonce: [u8; 12] = [0u8; 12];
        let mut i: usize = 0;
        while i < 12
            invariant
                i <= 12,
            decreases 12 - i,
        {
            nonce[i] = bytes[i];
            i = i + 1;
        }
        nonce
    }
}

} // verus!
