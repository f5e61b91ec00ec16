//! The double ratchet: per-peer session state deriving a fresh key for
//! every message.
use vstd::prelude::*;

use crate::bytes::{
    be32, be64, copy_16, copy_32, copy_range, eq_32, get_be32, get_be64, lemma_be32_inverse,
    lemma_be32_round_trip, lemma_be64_inverse, opt_bytes, push_be32, push_be64, push_bytes, read_be32,
    read_be64,
};
use crate::error::SignalError;
use crate::kdf::{
    chain_advance, cipher_key_of, iv_of, mac_key_of, new_chain_key, next_chain_key, next_root_key,
    nonce_of, SignalCipher, SignalHkdf,
};
use crate::keys::DhKeyPair;
use crate::primitives::{aes_gcm_seal, now_timestamp, wipe, x25519, x25519_base, AEAD_MAX_PLAINTEXT};

verus! {

/// Largest gap between the receiving counter and a message's counter.
pub const MAX_SKIP: u32 = 1000;

/// A message key derived ahead of its message, kept for late delivery.
pub struct SkippedKey {
    pub remote_key: [u8; 32],
    pub counter: u32,
    pub cipher_key: [u8; 32],
    pub mac_key: [u8; 32],
    pub iv: [u8; 16],
    pub timestamp: i64,
}

impl Drop for SkippedKey {
    /// The message keys are wiped when the entry goes away.
    fn drop(&mut self)
        opens_invariants none
        no_unwind
    {
        wipe(&mut self.cipher_key);
        wipe(&mut self.mac_key);
        wipe(&mut self.iv);
    }
}

/// Header of a ratchet message.
pub struct MessageHeader {
    pub dh_ratchet_key: [u8; 32],
    pub previous_counter: u32,
    pub message_counter: u32,
}

/// A message of an established session.
pub struct RatchetMessage {
    pub header: MessageHeader,
    pub ciphertext: Vec<u8>,
}

/// Per-peer ratchet state.
pub struct SessionState {
    dh_self: DhKeyPair,
    dh_remote: Option<[u8; 32]>,
    root_key: [u8; 32],
    sending_chain_key: Option<[u8; 32]>,
    receiving_chain_key: Option<[u8; 32]>,
    sending_counter: u32,
    receiving_counter: u32,
    previous_counter: u32,
    skipped_keys: Vec<SkippedKey>,
}

/// Whether a skip from counter `current` up to `until` stays within bounds.
pub open spec fn skip_allowed(current: u32, until: u32) -> bool {
    until < current || until - current <= MAX_SKIP
}

/// How many keys a skip from `current` up to `until` stores.
pub open spec fn skip_count(current: u32, until: u32) -> nat {
    if until < current {
        0
    } else {
        (until - current) as nat
    }
}

/// The entry holds the message keys of `chain_key` for `(remote, counter)`.
pub open spec fn holds_keys_of(e: SkippedKey, remote: Seq<u8>, counter: int, chain_key: Seq<u8>) -> bool {
    &&& e.remote_key@ == remote
    &&& e.counter == counter
    &&& e.cipher_key@ == cipher_key_of(chain_key)
    &&& e.mac_key@ == mac_key_of(chain_key)
    &&& e.iv@ == iv_of(chain_key)
}

/// The entries hold the keys of consecutive counters from `from`, along the
/// chain that starts at `chain_key`.
pub open spec fn skipped_run(entries: Seq<SkippedKey>, remote: Seq<u8>, chain_key: Seq<u8>, from: u32) -> bool {
    forall|j: int|
        0 <= j < entries.len() ==> holds_keys_of(
            #[trigger] entries[j],
            remote,
            from + j,
            chain_advance(chain_key, j as nat),
        )
}

/// Whether the entry is the stored key for `(remote, counter)`.
pub open spec fn entry_is(e: SkippedKey, remote: Seq<u8>, counter: u32) -> bool {
    e.remote_key@ == remote && e.counter == counter
}

/// The first index from `i` on whose entry is the key for `(remote, counter)`.
pub open spec fn first_skipped_from(sk: Seq<SkippedKey>, remote: Seq<u8>, counter: u32, i: int) -> Option<int>
    decreases sk.len() - i,
{
    if i >= sk.len() || i < 0 {
        None
    } else if entry_is(sk[i], remote, counter) {
        Some(i)
    } else {
        first_skipped_from(sk, remote, counter, i + 1)
    }
}

pub open spec fn first_skipped(sk: Seq<SkippedKey>, remote: Seq<u8>, counter: u32) -> Option<int> {
    first_skipped_from(sk, remote, counter, 0)
}

/// The two entries are keys for the same ratchet key and counter.
pub open spec fn same_slot(a: SkippedKey, b: SkippedKey) -> bool {
    a.remote_key@ == b.remote_key@ && a.counter == b.counter
}

/// No two stored keys are for the same ratchet key and counter.
pub open spec fn slots_unique(sk: Seq<SkippedKey>) -> bool {
    forall|i: int, j: int|
        0 <= i < sk.len() && 0 <= j < sk.len() && i != j ==> !same_slot(#[trigger] sk[i], #[trigger] sk[j])
}

/// Stored keys of the chain under `remote` lie below the counter `receive`.
pub open spec fn behind(sk: Seq<SkippedKey>, remote: Option<Seq<u8>>, receive: u32) -> bool {
    forall|i: int|
        0 <= i < sk.len() && remote == Some((#[trigger] sk[i]).remote_key@) ==> sk[i].counter < receive
}

/// The stored keys for ratchet keys other than `remote`, in order.
pub open spec fn without_remote(sk: Seq<SkippedKey>, remote: Seq<u8>) -> Seq<SkippedKey> {
    sk.filter(not_under(remote))
}

/// The entry is for a ratchet key other than `remote`.
pub open spec fn not_under(remote: Seq<u8>) -> spec_fn(SkippedKey) -> bool {
    |e: SkippedKey| e.remote_key@ != remote
}

/// Filtering keeps slots unique and keeps only stored entries.
pub proof fn lemma_filter_slots(sk: Seq<SkippedKey>, pred: spec_fn(SkippedKey) -> bool)
    requires
        slots_unique(sk),
    ensures
        slots_unique(sk.filter(pred)),
        forall|i: int| 0 <= i < sk.filter(pred).len() ==> sk.contains(#[trigger] sk.filter(pred)[i]),
    decreases sk.len(),
{
    reveal(Seq::filter);
    if sk.len() > 0 {
        let d = sk.drop_last();
        assert forall|i: int, j: int|
            0 <= i < d.len() && 0 <= j < d.len() && i != j implies !same_slot(#[trigger] d[i], #[trigger] d[j]) by {
            assert(d[i] == sk[i] && d[j] == sk[j]);
        }
        lemma_filter_slots(d, pred);
        let fd = d.filter(pred);
        let f = sk.filter(pred);
        assert forall|i: int| 0 <= i < fd.len() implies sk.contains(#[trigger] fd[i]) by {
            let j = choose|j: int| 0 <= j < d.len() && d[j] == fd[i];
            assert(sk[j] == fd[i]);
        }
        if pred(sk.last()) {
            assert(f == fd.push(sk.last()));
            assert forall|i: int| 0 <= i < fd.len() implies !same_slot(#[trigger] fd[i], sk.last()) && !same_slot(
                sk.last(),
                fd[i],
            ) by {
                let j = choose|j: int| 0 <= j < d.len() && d[j] == fd[i];
                assert(sk[j] == fd[i]);
                assert(!same_slot(sk[j], sk[sk.len() - 1]));
                assert(!same_slot(sk[sk.len() - 1], sk[j]));
            }
            assert forall|i: int, j: int|
                0 <= i < f.len() && 0 <= j < f.len() && i != j implies !same_slot(#[trigger] f[i], #[trigger] f[j]) by {
                if i < fd.len() && j < fd.len() {
                    assert(f[i] == fd[i] && f[j] == fd[j]);
                } else if i < fd.len() {
                    assert(f[i] == fd[i] && f[j] == sk.last());
                } else {
                    assert(f[j] == fd[j] && f[i] == sk.last());
                }
            }
            assert forall|i: int| 0 <= i < f.len() implies sk.contains(#[trigger] f[i]) by {
                if i < fd.len() {
                    assert(f[i] == fd[i]);
                } else {
                    assert(f[i] == sk[sk.len() - 1]);
                }
            }
        } else {
            assert(f == fd);
        }
    }
}

/// Removing a stored key keeps the slots unique and behind the counter.
pub proof fn lemma_remove_keeps_slots(sk: Seq<SkippedKey>, i: int, remote: Option<Seq<u8>>, receive: u32)
    requires
        slots_unique(sk),
        behind(sk, remote, receive),
        0 <= i < sk.len(),
    ensures
        slots_unique(sk.remove(i)),
        behind(sk.remove(i), remote, receive),
{
    let t = sk.remove(i);
    assert forall|a: int| 0 <= a < t.len() implies #[trigger] t[a] == sk[if a < i { a } else { a + 1 }] by {}
    assert forall|a: int, b: int|
        0 <= a < t.len() && 0 <= b < t.len() && a != b implies !same_slot(#[trigger] t[a], #[trigger] t[b]) by {
        let sa = if a < i { a } else { a + 1 };
        let sb = if b < i { b } else { b + 1 };
        assert(t[a] == sk[sa] && t[b] == sk[sb]);
    }
    assert forall|a: int|
        0 <= a < t.len() && remote == Some((#[trigger] t[a]).remote_key@) implies t[a].counter < receive by {
        let sa = if a < i { a } else { a + 1 };
        assert(t[a] == sk[sa]);
    }
}

/// Reading a message along its chain keeps the session well formed.
#[verifier::rlimit(60)]
pub proof fn lemma_advanced_keeps_wf(s: SessionState, h: MessageHeader, t: SessionState)
    requires
        s.wf(),
        s.receive_failure(h) is None,
        s.advanced(h, &t),
    ensures
        t.wf(),
{
    let k = h.dh_ratchet_key@;
    let base = s.kept_skipped(k);
    let n = base.len() as int;
    let c1 = s.old_chain_skip(h) as int;
    let c2 = skip_count(s.position_for(k), h.message_counter) as int;
    let ts = t.skipped();
    let pred = not_under(k);
    if s.needs_ratchet(k) {
        lemma_filter_slots(s.skipped(), pred);
        assert forall|x: int| 0 <= x < base.len() implies (#[trigger] base[x]).remote_key@ != k by {
            s.skipped().lemma_filter_pred(pred, x);
        }
    } else {
        assert forall|x: int| 0 <= x < base.len() implies s.skipped().contains(#[trigger] base[x]) by {
            assert(s.skipped()[x] == base[x]);
        }
    }
    assert forall|x: int| 0 <= x < n implies #[trigger] ts[x] == base[x] && s.skipped().contains(base[x]) by {
        assert(ts.subrange(0, n)[x] == ts[x]);
    }
    assert forall|x: int| 0 <= x < n implies (s.remote() == Some((#[trigger] ts[x]).remote_key@) ==> ts[x].counter
        < s.receive_count()) by {
        let j = choose|j: int| 0 <= j < s.skipped().len() && s.skipped()[j] == base[x];
        assert(s.skipped()[j] == ts[x]);
    }
    assert forall|x: int| n <= x < n + c1 implies (#[trigger] ts[x]).remote_key@ == s.remote()->0
        && ts[x].counter == s.receive_count() + (x - n) by {
        assert(ts.subrange(n, n + c1)[x - n] == ts[x]);
    }
    assert forall|x: int| n + c1 <= x < n + c1 + c2 implies (#[trigger] ts[x]).remote_key@ == k
        && ts[x].counter == s.position_for(k) + (x - n - c1) by {
        assert(ts.subrange(n + c1, n + c1 + c2)[x - n - c1] == ts[x]);
    }
    assert(c1 > 0 ==> s.skips_old_chain(k));
    assert forall|a: int, b: int|
        0 <= a < ts.len() && 0 <= b < ts.len() && a != b implies !same_slot(#[trigger] ts[a], #[trigger] ts[b]) by {
        if a < n && b < n {
            assert(ts[a] == base[a] && ts[b] == base[b]);
            if !s.needs_ratchet(k) {
                assert(base[a] == s.skipped()[a] && base[b] == s.skipped()[b]);
            }
        }
    }
    assert forall|x: int|
        0 <= x < ts.len() && t.remote() == Some((#[trigger] ts[x]).remote_key@) implies ts[x].counter
        < t.receive_count() by {
        if x < n {
            assert(ts[x] == base[x]);
        }
    }
}

/// The skipped keys younger than `max_age` seconds at time `now`, in order.
pub open spec fn fresh_keys(sk: Seq<SkippedKey>, now: i64, max_age: i64) -> Seq<SkippedKey> {
    sk.filter(|e: SkippedKey| is_fresh(e, now, max_age))
}

/// The key is younger than `max_age` seconds at time `now`.
pub open spec fn is_fresh(e: SkippedKey, now: i64, max_age: i64) -> bool {
    (now as int) - (e.timestamp as int) < max_age as int
}

/// A found index lies in range and names a matching entry.
pub proof fn lemma_first_skipped_found(sk: Seq<SkippedKey>, remote: Seq<u8>, counter: u32, from: int)
    requires
        0 <= from,
    ensures
        first_skipped_from(sk, remote, counter, from) matches Some(i) ==> from <= i < sk.len()
            && entry_is(sk[i], remote, counter),
    decreases sk.len() - from,
{
    if from < sk.len() && !entry_is(sk[from], remote, counter) {
        lemma_first_skipped_found(sk, remote, counter, from + 1);
    }
}

/// The outcome of authenticated decryption under `key` and `nonce`: the
/// plaintext that was sealed, or a failure when nothing sealed gives `ct`.
pub open spec fn opens_to(key: Seq<u8>, nonce: Seq<u8>, ct: Seq<u8>, r: Result<Vec<u8>, SignalError>) -> bool {
    match r {
        Ok(p) => {
            &&& ct == aes_gcm_seal(key, nonce, p@)
            &&& forall|m: Seq<u8>|
                m.len() <= AEAD_MAX_PLAINTEXT && #[trigger] aes_gcm_seal(key, nonce, m) == ct ==> p@
                    == m
        },
        Err(e) => {
            &&& e == SignalError::DecryptionFailure
            &&& forall|m: Seq<u8>|
                m.len() <= AEAD_MAX_PLAINTEXT ==> #[trigger] aes_gcm_seal(key, nonce, m) != ct
        },
    }
}

impl SessionState {
    pub closed spec fn ratchet_pair(&self) -> DhKeyPair {
        self.dh_self
    }

    pub closed spec fn remote(&self) -> Option<Seq<u8>> {
        match self.dh_remote {
            Some(k) => Some(k@),
            None => None,
        }
    }

    pub closed spec fn root(&self) -> Seq<u8> {
        self.root_key@
    }

    pub closed spec fn sending_chain(&self) -> Option<Seq<u8>> {
        match self.sending_chain_key {
            Some(k) => Some(k@),
            None => None,
        }
    }

    pub closed spec fn receiving_chain(&self) -> Option<Seq<u8>> {
        match self.receiving_chain_key {
            Some(k) => Some(k@),
            None => None,
        }
    }

    pub closed spec fn send_count(&self) -> u32 {
        self.sending_counter
    }

    pub closed spec fn receive_count(&self) -> u32 {
        self.receiving_counter
    }

    pub closed spec fn previous_count(&self) -> u32 {
        self.previous_counter
    }

    pub closed spec fn skipped(&self) -> Seq<SkippedKey> {
        self.skipped_keys@
    }

    /// The ratchet key pair is well formed.
    pub open spec fn wf(&self) -> bool {
        &&& self.ratchet_pair().wf()
        &&& slots_unique(self.skipped())
        &&& behind(self.skipped(), self.remote(), self.receive_count())
    }

    /// The stored keys that a message under `remote` keeps: after a ratchet
    /// step to `remote`, those of an earlier chain under that same key go.
    pub open spec fn kept_skipped(&self, remote: Seq<u8>) -> Seq<SkippedKey> {
        if self.needs_ratchet(remote) {
            without_remote(self.skipped(), remote)
        } else {
            self.skipped()
        }
    }

    /// All fields but the skipped keys agree.
    pub open spec fn same_but_skipped(&self, t: &SessionState) -> bool {
        &&& t.ratchet_pair() == self.ratchet_pair()
        &&& t.remote() == self.remote()
        &&& t.root() == self.root()
        &&& t.sending_chain() == self.sending_chain()
        &&& t.receiving_chain() == self.receiving_chain()
        &&& t.send_count() == self.send_count()
        &&& t.receive_count() == self.receive_count()
        &&& t.previous_count() == self.previous_count()
    }

    /// A message under ratchet key `remote` starts a DH ratchet step.
    pub open spec fn needs_ratchet(&self, remote: Seq<u8>) -> bool {
        self.remote() != Some(remote)
    }

    /// The DH output of our current ratchet key with `remote`.
    pub open spec fn receiving_dh(&self, remote: Seq<u8>) -> Seq<u8> {
        x25519(self.ratchet_pair().secret_bytes(), remote)
    }

    /// The receiving chain that a message under `remote` is read from.
    pub open spec fn chain_for(&self, remote: Seq<u8>) -> Seq<u8> {
        if self.needs_ratchet(remote) {
            new_chain_key(self.root(), self.receiving_dh(remote))
        } else {
            self.receiving_chain()->0
        }
    }

    /// The counter that the chain for `remote` stands at.
    pub open spec fn position_for(&self, remote: Seq<u8>) -> u32 {
        if self.needs_ratchet(remote) {
            0
        } else {
            self.receive_count()
        }
    }

    /// Whether a ratchet step first stores the rest of the old receiving chain.
    pub open spec fn skips_old_chain(&self, remote: Seq<u8>) -> bool {
        self.needs_ratchet(remote) && self.receiving_chain() is Some && self.remote() is Some
    }

    /// How many keys of the old receiving chain a message stores.
    pub open spec fn old_chain_skip(&self, h: MessageHeader) -> nat {
        if self.skips_old_chain(h.dh_ratchet_key@) {
            skip_count(self.receive_count(), h.previous_counter)
        } else {
            0
        }
    }

    /// The failure a message not found among the skipped keys meets, if any.
    pub open spec fn receive_failure(&self, h: MessageHeader) -> Option<SignalError> {
        let k = h.dh_ratchet_key@;
        if self.skips_old_chain(k) && !skip_allowed(self.receive_count(), h.previous_counter) {
            Some(SignalError::TooManySkippedMessages)
        } else if !self.needs_ratchet(k) && self.receiving_chain() is None {
            Some(SignalError::NoReceivingChain)
        } else if !self.needs_ratchet(k) && h.message_counter < self.receive_count() {
            Some(SignalError::DecryptionFailure)
        } else if !skip_allowed(self.position_for(k), h.message_counter) {
            Some(SignalError::TooManySkippedMessages)
        } else if h.message_counter == u32::MAX {
            Some(SignalError::MalformedMessage)
        } else {
            None
        }
    }

    /// The chain key whose message keys open a message with header `h`.
    pub open spec fn message_chain(&self, h: MessageHeader) -> Seq<u8> {
        let k = h.dh_ratchet_key@;
        chain_advance(self.chain_for(k), skip_count(self.position_for(k), h.message_counter))
    }

    /// `t` is this state after reading the message with header `h` from its
    /// chain: keys skipped on the way are stored, and after a ratchet step
    /// the new sending chain comes from the new ratchet key of `t`.
    pub open spec fn advanced(&self, h: MessageHeader, t: &SessionState) -> bool {
        let k = h.dh_ratchet_key@;
        let n = self.kept_skipped(k).len() as int;
        let c1 = self.old_chain_skip(h) as int;
        let c2 = skip_count(self.position_for(k), h.message_counter) as int;
        let root1 = next_root_key(self.root(), self.receiving_dh(k));
        &&& t.remote() == Some(k)
        &&& t.receiving_chain() == Some(next_chain_key(self.message_chain(h)))
        &&& t.receive_count() == h.message_counter + 1
        &&& t.skipped().len() == n + c1 + c2
        &&& t.skipped().subrange(0, n) == self.kept_skipped(k)
        &&& skipped_run(
            t.skipped().subrange(n, n + c1),
            self.remote()->0,
            self.receiving_chain()->0,
            self.receive_count(),
        )
        &&& skipped_run(
            t.skipped().subrange(n + c1, n + c1 + c2),
            k,
            self.chain_for(k),
            self.position_for(k),
        )
        &&& if self.needs_ratchet(k) {
            &&& t.ratchet_pair().wf()
            &&& t.root() == next_root_key(root1, t.receiving_dh(k))
            &&& t.sending_chain() == Some(new_chain_key(root1, t.receiving_dh(k)))
            &&& t.send_count() == 0
            &&& t.previous_count() == self.send_count()
        } else {
            &&& t.ratchet_pair() == self.ratchet_pair()
            &&& t.root() == self.root()
            &&& t.sending_chain() == self.sending_chain()
            &&& t.send_count() == self.send_count()
            &&& t.previous_count() == self.previous_count()
        }
    }

    /// What `decrypt` does to state `self`, giving `r` and state `t`.
    pub open spec fn decrypt_outcome(
        &self,
        m: RatchetMessage,
        r: Result<Vec<u8>, SignalError>,
        t: &SessionState,
    ) -> bool {
        let h = m.header;
        let ct = m.ciphertext@;
        match first_skipped(self.skipped(), h.dh_ratchet_key@, h.message_counter) {
            Some(i) => {
                let e = self.skipped()[i];
                &&& opens_to(e.cipher_key@, e.iv@.subrange(0, 12), ct, r)
                &&& r is Ok ==> self.same_but_skipped(t) && t.skipped() == self.skipped().remove(i)
                &&& r is Err ==> *t == *self
            },
            None => match self.receive_failure(h) {
                Some(e) => r == Err::<Vec<u8>, SignalError>(e) && *t == *self,
                None => {
                    let ck = self.message_chain(h);
                    &&& opens_to(cipher_key_of(ck), nonce_of(ck), ct, r)
                    &&& r is Ok ==> self.advanced(h, t)
                    &&& r is Err ==> *t == *self
                },
            },
        }
    }

    /// What `encrypt` does to state `self`, giving `r` and state `t`.
    pub open spec fn encrypt_outcome(
        &self,
        plaintext: Seq<u8>,
        r: Result<RatchetMessage, SignalError>,
        t: &SessionState,
    ) -> bool {
        match r {
            Ok(msg) => {
                let ck = self.sending_chain()->0;
                &&& self.sending_chain() is Some
                &&& msg.header.dh_ratchet_key@ == self.ratchet_pair().public_bytes()
                &&& msg.header.previous_counter == self.previous_count()
                &&& msg.header.message_counter == self.send_count()
                &&& msg.ciphertext@ == aes_gcm_seal(cipher_key_of(ck), nonce_of(ck), plaintext)
                &&& msg.ciphertext@.len() == plaintext.len() + 16
                &&& t.sending_chain() == Some(next_chain_key(ck))
                &&& t.send_count() == self.send_count() + 1
                &&& t.ratchet_pair() == self.ratchet_pair()
                &&& t.remote() == self.remote()
                &&& t.root() == self.root()
                &&& t.receiving_chain() == self.receiving_chain()
                &&& t.receive_count() == self.receive_count()
                &&& t.previous_count() == self.previous_count()
                &&& t.skipped() == self.skipped()
            },
            Err(e) => {
                &&& *t == *self
                &&& e == if self.sending_chain() is None {
                    SignalError::NoSendingChain
                } else {
                    SignalError::EncryptionFailure
                }
            },
        }
    }

    /// Whether `encrypt` succeeds: a sending chain exists, the counter can
    /// advance, and the plaintext is within the cipher's limit.
    pub open spec fn can_encrypt(&self, plaintext: Seq<u8>) -> bool {
        &&& self.sending_chain() is Some
        &&& self.send_count() < u32::MAX
        &&& plaintext.len() <= AEAD_MAX_PLAINTEXT
    }
}

/// The first 12 bytes of an IV, the AEAD nonce.
fn nonce_from_iv(iv: &[u8; 16]) -> (r: [u8; 12])
    ensures
        r@ == iv@.subrange(0, 12),
{
    let mut nonce: [u8; 12] = [0u8; 12];
    let mut i: usize = 0;
    while i < 12
        invariant
            i <= 12,
            forall|k: int| 0 <= k < i ==> nonce@[k] == iv@[k],
        decreases 12 - i,
    {
        nonce[i] = iv[i];
        i = i + 1;
    }
    assert(nonce@ =~= iv@.subrange(0, 12));
    nonce
}

/// The stored keys for ratchet keys other than `remote`, in order.
fn drop_remote(keys: &Vec<SkippedKey>, remote: &[u8; 32]) -> (r: Vec<SkippedKey>)
    ensures
        r@ == without_remote(keys@, remote@),
{
    let mut kept: Vec<SkippedKey> = Vec::new();
    let ghost all = keys@;
    let mut i: usize = 0;
    while i < keys.len()
        invariant
            keys@ == all,
            i <= all.len(),
            kept@ == without_remote(all.subrange(0, i as int), remote@),
        decreases all.len() - i,
    {
        let e = &keys[i];
        let ghost prefix = all.subrange(0, i + 1);
        let same = eq_32(&e.remote_key, remote);
        proof {
            assert(prefix.drop_last() =~= all.subrange(0, i as int));
            assert(prefix.last() == all[i as int]);
            reveal_with_fuel(Seq::filter, 1);
        }
        if !same {
            let copy = SkippedKey {
                remote_key: e.remote_key,
                counter: e.counter,
                cipher_key: e.cipher_key,
                mac_key: e.mac_key,
                iv: e.iv,
                timestamp: e.timestamp,
            };
            assert(copy == all[i as int]);
            kept.push(copy);
        }
        assert(kept@ =~= without_remote(prefix, remote@));
        i = i + 1;
    }
    assert(all.subrange(0, all.len() as int) =~= all);
    kept
}

/// Derives and stores the keys of counters `from..until` of the chain at
/// `chain_key` into `staged`, and returns the chain key reached. Fails,
/// storing nothing, when the gap exceeds `MAX_SKIP`.
fn skip_message_keys(
    staged: &mut Vec<SkippedKey>,
    remote: &[u8; 32],
    chain_key: [u8; 32],
    from: u32,
    until: u32,
    timestamp: i64,
) -> (r: Result<[u8; 32], SignalError>)
    ensures
        r is Ok <==> skip_allowed(from, until),
        r matches Err(e) ==> e == SignalError::TooManySkippedMessages && final(staged)@ == old(
            staged,
        )@,
        r matches Ok(c) ==> {
            &&& c@ == chain_advance(chain_key@, skip_count(from, until))
            &&& final(staged)@.len() == old(staged)@.len() + skip_count(from, until)
            &&& final(staged)@.subrange(0, old(staged)@.len() as int) == old(staged)@
            &&& skipped_run(
                final(staged)@.subrange(old(staged)@.len() as int, final(staged)@.len() as int),
                remote@,
                chain_key@,
                from,
            )
        },
{
    if until < from {
        assert(final(staged)@.subrange(old(staged)@.len() as int, final(staged)@.len() as int)
            =~= Seq::<SkippedKey>::empty());
        assert(staged@.subrange(0, staged@.len() as int) =~= staged@);
        return Ok(chain_key);
    }
    if until - from > MAX_SKIP {
        return Err(SignalError::TooManySkippedMessages);
    }
    let ghost start = staged@;
    let mut chain: [u8; 32] = chain_key;
    let mut i: u32 = from;
    while i < until
        invariant
            from <= i <= until,
            chain@ == chain_advance(chain_key@, (i - from) as nat),
            staged@.len() == start.len() + (i - from),
            staged@.subrange(0, start.len() as int) == start,
            skipped_run(
                staged@.subrange(start.len() as int, staged@.len() as int),
                remote@,
                chain_key@,
                from,
            ),
        decreases until - i,
    {
        let keys = match SignalHkdf::derive_message_keys(&chain) {
            Ok(k) => k,
            Err(_) => {
                assert(false);
                return Err(SignalError::TooManySkippedMessages);
            },
        };
        let ghost before = staged@;
        staged.push(
            SkippedKey {
                remote_key: *remote,
                counter: i,
                cipher_key: keys.cipher_key,
                mac_key: keys.mac_key,
                iv: keys.iv,
                timestamp,
            },
        );
        assert(staged@.subrange(0, start.len() as int) =~= before.subrange(0, start.len() as int));
        assert forall|j: int|
            0 <= j < staged@.len() - start.len() implies holds_keys_of(
            #[trigger] staged@.subrange(start.len() as int, staged@.len() as int)[j],
            remote@,
            from + j,
            chain_advance(chain_key@, j as nat),
        ) by {
            if j < before.len() - start.len() {
                assert(staged@.subrange(start.len() as int, staged@.len() as int)[j] == before.subrange(
                    start.len() as int,
                    before.len() as int,
                )[j]);
            }
        }
        chain = keys.next_chain_key;
        i = i + 1;
    }
    Ok(chain)
}

impl SessionState {
    /// The initiator's session: one DH ratchet step from the X3DH secret with
    /// the responder's signed pre-key gives the root and sending chain keys.
    pub fn initialize_alice(
        shared_secret: &[u8; 32],
        our_ratchet_key: DhKeyPair,
        their_ratchet_key: &[u8; 32],
    ) -> (r: Result<Self, SignalError>)
        requires
            our_ratchet_key.wf(),
        ensures
            r matches Ok(s) && {
                let dh = x25519(our_ratchet_key.secret_bytes(), their_ratchet_key@);
                &&& s.wf()
                &&& s.ratchet_pair() == our_ratchet_key
                &&& s.remote() == Some(their_ratchet_key@)
                &&& s.root() == next_root_key(shared_secret@, dh)
                &&& s.sending_chain() == Some(new_chain_key(shared_secret@, dh))
                &&& s.receiving_chain() is None
                &&& s.send_count() == 0 && s.receive_count() == 0 && s.previous_count() == 0
                &&& s.skipped().len() == 0
            },
    {
        let dh_output = our_ratchet_key.dh_agreement(their_ratchet_key);
        let (root_key, sending_chain_key) = SignalHkdf::derive_root_key(shared_secret, &dh_output)?;
        Ok(SessionState {
            dh_self: our_ratchet_key,
            dh_remote: Some(*their_ratchet_key),
            root_key,
            sending_chain_key: Some(sending_chain_key),
            receiving_chain_key: None,
            sending_counter: 0,
            receiving_counter: 0,
            previous_counter: 0,
            skipped_keys: Vec::new(),
        })
    }

    /// The responder's session: the X3DH secret is the root key and no chain
    /// exists until the first message arrives.
    pub fn initialize_bob(shared_secret: &[u8; 32], our_ratchet_key: DhKeyPair) -> (s: Self)
        requires
            our_ratchet_key.wf(),
        ensures
            s.wf(),
            s.ratchet_pair() == our_ratchet_key,
            s.remote() is None,
            s.root() == shared_secret@,
            s.sending_chain() is None,
            s.receiving_chain() is None,
            s.send_count() == 0 && s.receive_count() == 0 && s.previous_count() == 0,
            s.skipped().len() == 0,
    {
        SessionState {
            dh_self: our_ratchet_key,
            dh_remote: None,
            root_key: *shared_secret,
            sending_chain_key: None,
            receiving_chain_key: None,
            sending_counter: 0,
            receiving_counter: 0,
            previous_counter: 0,
            skipped_keys: Vec::new(),
        }
    }

    /// Encrypts with the next key of the sending chain.
    pub fn encrypt(&mut self, plaintext: &[u8]) -> (r: Result<RatchetMessage, SignalError>)
        ensures
            r is Ok <==> old(self).can_encrypt(plaintext@),
            old(self).encrypt_outcome(plaintext@, r, final(self)),
    {
        let chain_key = match self.sending_chain_key {
            Some(k) => k,
            None => return Err(SignalError::NoSendingChain),
        };
        if self.sending_counter == u32::MAX {
            return Err(SignalError::EncryptionFailure);
        }
        let keys = SignalHkdf::derive_message_keys(&chain_key)?;
        let nonce = nonce_from_iv(&keys.iv);
        let ciphertext = SignalCipher::encrypt(&keys.cipher_key, &nonce, plaintext)?;
        let header = MessageHeader {
            dh_ratchet_key: self.dh_self.public_key(),
            previous_counter: self.previous_counter,
            message_counter: self.sending_counter,
        };
        self.sending_chain_key = Some(keys.next_chain_key);
        self.sending_counter = self.sending_counter + 1;
        Ok(RatchetMessage { header, ciphertext })
    }

    /// Decrypts a message. A stored skipped key for the message's ratchet key
    /// and counter is used and removed. Otherwise a new ratchet key first
    /// stores the rest of the current receiving chain and performs a DH
    /// ratchet step; then the keys before the message's counter are stored
    /// and the message is opened with the key of its counter. A counter below
    /// the receiving counter of the current chain, with no stored key, is
    /// refused. On any failure the state is left as it was.
    pub fn decrypt(&mut self, message: &RatchetMessage) -> (r: Result<Vec<u8>, SignalError>)
        requires
            old(self).wf(),
        ensures
            final(self).wf(),
            old(self).decrypt_outcome(*message, r, final(self)),
            first_skipped(
                old(self).skipped(),
                message.header.dh_ratchet_key@,
                message.header.message_counter,
            ) is None && !old(self).needs_ratchet(message.header.dh_ratchet_key@)
                && old(self).receiving_chain() is Some && message.header.message_counter < old(
                self,
            ).receive_count() ==> r == Err::<Vec<u8>, SignalError>(SignalError::DecryptionFailure)
                && *final(self) == *old(self),
            r is Ok ==> first_skipped(
                final(self).skipped(),
                message.header.dh_ratchet_key@,
                message.header.message_counter,
            ) is None,
    {
        let remote = message.header.dh_ratchet_key;
        let n = message.header.message_counter;
        match self.find_skipped(&remote, n) {
            Some(i) => {
                let cipher_key = self.skipped_keys[i].cipher_key;
                let iv = self.skipped_keys[i].iv;
                let nonce = nonce_from_iv(&iv);
                let plaintext = SignalCipher::decrypt(&cipher_key, &nonce, message.ciphertext.as_slice())?;
                proof {
                    lemma_remove_keeps_slots(self.skipped_keys@, i as int, self.remote(), self.receiving_counter);
                }
                let ghost before = self.skipped_keys@;
                self.skipped_keys.remove(i);
                proof {
                    let t = self.skipped_keys@;
                    lemma_first_skipped_found(before, remote@, n, 0);
                    assert(entry_is(before[i as int], remote@, n));
                    assert forall|x: int| 0 <= x < t.len() implies !entry_is(#[trigger] t[x], remote@, n) by {
                        let sx = if x < i { x } else { x + 1 };
                        assert(t[x] == before[sx]);
                        assert(!same_slot(before[sx], before[i as int]));
                    }
                    lemma_first_skipped_none(t, remote@, n, 0);
                }
                return Ok(plaintext);
            },
            None => {},
        }
        let ratchet = match self.dh_remote {
            Some(k) => !eq_32(&k, &remote),
            None => true,
        };
        let timestamp = now_timestamp();
        let mut staged: Vec<SkippedKey> = Vec::new();
        let chain: [u8; 32];
        let position: u32;
        let mut root = self.root_key;
        let mut dh_self = self.dh_self.clone();
        let mut sending_chain = self.sending_chain_key;
        let mut sending_counter = self.sending_counter;
        let mut previous_counter = self.previous_counter;
        if ratchet {
            match (self.receiving_chain_key, self.dh_remote) {
                (Some(ck), Some(old_remote)) => {
                    let _ = skip_message_keys(
                        &mut staged,
                        &old_remote,
                        ck,
                        self.receiving_counter,
                        message.header.previous_counter,
                        timestamp,
                    )?;
                    assert(staged@.subrange(0, staged@.len() as int) =~= staged@);
                },
                _ => {},
            }
            let (root2, receiving, fresh, sending) = self.dh_ratchet(&remote);
            previous_counter = self.sending_counter;
            sending_counter = 0;
            root = root2;
            sending_chain = Some(sending);
            dh_self = fresh;
            chain = receiving;
            position = 0;
        } else {
            chain = match self.receiving_chain_key {
                Some(ck) => ck,
                None => return Err(SignalError::NoReceivingChain),
            };
            if n < self.receiving_counter {
                return Err(SignalError::DecryptionFailure);
            }
            position = self.receiving_counter;
        }
        let ghost c1 = staged@.len();
        let ghost run1 = staged@;
        assert(skipped_run(run1, old(self).remote()->0, old(self).receiving_chain()->0, old(self).receive_count()));
        let message_chain = skip_message_keys(&mut staged, &remote, chain, position, n, timestamp)?;
        if n == u32::MAX {
            return Err(SignalError::MalformedMessage);
        }
        let keys = SignalHkdf::derive_message_keys(&message_chain)?;
        let nonce = nonce_from_iv(&keys.iv);
        let plaintext = SignalCipher::decrypt(&keys.cipher_key, &nonce, message.ciphertext.as_slice())?;
        if ratchet {
            let kept = drop_remote(&self.skipped_keys, &remote);
            self.skipped_keys = kept;
        }
        let ghost old_skipped = self.skipped_keys@;
        let ghost all_staged = staged@;
        self.dh_self = dh_self;
        self.dh_remote = Some(remote);
        self.root_key = root;
        self.sending_chain_key = sending_chain;
        self.receiving_chain_key = Some(keys.next_chain_key);
        self.sending_counter = sending_counter;
        self.receiving_counter = n + 1;
        self.previous_counter = previous_counter;
        self.skipped_keys.append(&mut staged);
        proof {
            let nn = old_skipped.len() as int;
            assert(self.skipped_keys@ == old_skipped + all_staged);
            assert(self.skipped_keys@.subrange(0, nn) =~= old_skipped);
            assert(self.skipped_keys@.subrange(nn, nn + c1) =~= all_staged.subrange(0, c1 as int));
            assert(all_staged.subrange(0, c1 as int) == run1);
            assert(old_skipped == old(self).kept_skipped(remote@));
            assert(self.skipped_keys@.subrange(nn + c1, self.skipped_keys@.len() as int)
                =~= all_staged.subrange(c1 as int, all_staged.len() as int));
            assert(old(self).advanced(message.header, self));
            lemma_advanced_keeps_wf(*old(self), message.header, *self);
            lemma_read_slot_gone(*old(self), message.header, *self);
        }
        Ok(plaintext)
    }

    /// Our current ratchet public key.
    pub fn our_ratchet_key(&self) -> (r: [u8; 32])
        ensures
            r@ == self.ratchet_pair().public_bytes(),
    {
        self.dh_self.public_key()
    }

    pub fn sending_counter(&self) -> (r: u32)
        ensures
            r == self.send_count(),
    {
        self.sending_counter
    }

    pub fn receiving_counter(&self) -> (r: u32)
        ensures
            r == self.receive_count(),
    {
        self.receiving_counter
    }

    pub fn previous_counter(&self) -> (r: u32)
        ensures
            r == self.previous_count(),
    {
        self.previous_counter
    }

    /// Number of stored skipped keys.
    pub fn skipped_key_count(&self) -> (r: usize)
        ensures
            r == self.skipped().len(),
    {
        self.skipped_keys.len()
    }

    /// Keeps the skipped keys younger than `max_age_seconds` at time `now`,
    /// in their order; the rest of the state is unchanged.
    pub fn retain_fresh_skipped_keys(&mut self, now: i64, max_age_seconds: i64)
        requires
            old(self).wf(),
        ensures
            final(self).wf(),
            old(self).same_but_skipped(final(self)),
            final(self).skipped() == fresh_keys(old(self).skipped(), now, max_age_seconds),
    {
        let mut kept: Vec<SkippedKey> = Vec::new();
        let mut old_keys: Vec<SkippedKey> = Vec::new();
        std::mem::swap(&mut old_keys, &mut self.skipped_keys);
        let ghost all = old_keys@;
        let mut i: usize = 0;
        while i < old_keys.len()
            invariant
                old_keys@ == all,
                i <= all.len(),
                kept@ == fresh_keys(all.subrange(0, i as int), now, max_age_seconds),
            decreases all.len() - i,
        {
            let e = &old_keys[i];
            let age: i128 = (now as i128) - (e.timestamp as i128);
            let ghost prefix = all.subrange(0, i + 1);
            proof {
                assert(prefix.drop_last() =~= all.subrange(0, i as int));
                assert(prefix.last() == all[i as int]);
                reveal_with_fuel(Seq::filter, 1);
                assert(is_fresh(all[i as int], now, max_age_seconds) == (age < max_age_seconds as i128));
            }
            if age < max_age_seconds as i128 {
                let copy = SkippedKey {
                    remote_key: e.remote_key,
                    counter: e.counter,
                    cipher_key: e.cipher_key,
                    mac_key: e.mac_key,
                    iv: e.iv,
                    timestamp: e.timestamp,
                };
                assert(copy == all[i as int]);
                kept.push(copy);
            }
            assert(kept@ =~= fresh_keys(prefix, now, max_age_seconds));
            i = i + 1;
        }
        assert(all.subrange(0, all.len() as int) =~= all);
        self.skipped_keys = kept;
        proof {
            let f = all.filter(|e: SkippedKey| is_fresh(e, now, max_age_seconds));
            lemma_filter_slots(all, |e: SkippedKey| is_fresh(e, now, max_age_seconds));
            assert(self.skipped() == f);
            assert forall|x: int|
                0 <= x < f.len() && self.remote() == Some((#[trigger] f[x]).remote_key@) implies f[x].counter
                < self.receive_count() by {
                let j = choose|j: int| 0 <= j < all.len() && all[j] == f[x];
            }
        }
    }

    /// Drops the skipped keys older than `max_age_seconds` at the current time.
    pub fn cleanup_skipped_keys(&mut self, max_age_seconds: i64)
        requires
            old(self).wf(),
        ensures
            final(self).wf(),
            old(self).same_but_skipped(final(self)),
            exists|now: i64|
                final(self).skipped() == #[trigger] fresh_keys(old(self).skipped(), now, max_age_seconds),
    {
        let now = now_timestamp();
        self.retain_fresh_skipped_keys(now, max_age_seconds);
    }

    /// One DH ratchet step against `their_key`: the next root key and the
    /// receiving chain from our current ratchet key, then a fresh ratchet key
    /// pair, and the root key and sending chain that it gives.
    fn dh_ratchet(&self, their_key: &[u8; 32]) -> (r: ([u8; 32], [u8; 32], DhKeyPair, [u8; 32]))
        ensures
            ({
                let (root, receiving, fresh, sending) = r;
                let root1 = next_root_key(self.root(), self.receiving_dh(their_key@));
                &&& receiving@ == new_chain_key(self.root(), self.receiving_dh(their_key@))
                &&& fresh.wf()
                &&& root@ == next_root_key(root1, x25519(fresh.secret_bytes(), their_key@))
                &&& sending@ == new_chain_key(root1, x25519(fresh.secret_bytes(), their_key@))
            }),
    {
        let dh_receive = self.dh_self.dh_agreement(their_key);
        let (root1, receiving) = match SignalHkdf::derive_root_key(&self.root_key, &dh_receive) {
            Ok(k) => k,
            Err(_) => {
                assert(false);
                ([0u8; 32], [0u8; 32])
            },
        };
        let fresh = DhKeyPair::generate();
        let dh_send = fresh.dh_agreement(their_key);
        let (root2, sending) = match SignalHkdf::derive_root_key(&root1, &dh_send) {
            Ok(k) => k,
            Err(_) => {
                assert(false);
                ([0u8; 32], [0u8; 32])
            },
        };
        (root2, receiving, fresh, sending)
    }

    /// The index of the first stored key for `(remote, counter)`.
    fn find_skipped(&self, remote: &[u8; 32], counter: u32) -> (r: Option<usize>)
        ensures
            r matches Some(i) ==> first_skipped(self.skipped(), remote@, counter) == Some(i as int)
                && i < self.skipped().len(),
            r is None ==> first_skipped(self.skipped(), remote@, counter) is None,
    {
        let mut i: usize = 0;
        while i < self.skipped_keys.len()
            invariant
                i <= self.skipped_keys@.len(),
                first_skipped_from(self.skipped_keys@, remote@, counter, 0) == first_skipped_from(
                    self.skipped_keys@,
                    remote@,
                    counter,
                    i as int,
                ),
            decreases self.skipped_keys@.len() - i,
        {
            let e = &self.skipped_keys[i];
            if e.counter == counter && eq_32(&e.remote_key, remote) {
                proof {
                    lemma_first_skipped_found(self.skipped_keys@, remote@, counter, 0);
                }
                return Some(i);
            }
            i = i + 1;
        }
        None
    }
}

/// Wire form of a message header: ratchet key, previous and message counters.
pub open spec fn header_bytes(h: MessageHeader) -> Seq<u8> {
    h.dh_ratchet_key@ + be32(h.previous_counter) + be32(h.message_counter)
}

/// The header `h` is what the first 40 bytes of `d` hold.
pub open spec fn header_decodes_to(d: Seq<u8>, h: MessageHeader) -> bool {
    &&& h.dh_ratchet_key@ == d.subrange(0, 32)
    &&& h.previous_counter == read_be32(d.subrange(32, 36))
    &&& h.message_counter == read_be32(d.subrange(36, 40))
}

/// Wire form of a ratchet message: header length, header, ciphertext.
pub open spec fn ratchet_message_bytes(m: RatchetMessage) -> Seq<u8> {
    be32(40) + header_bytes(m.header) + m.ciphertext@
}

/// Whether the bytes hold a ratchet message: a header length of at least
/// 40 that fits.
pub open spec fn ratchet_message_complete(d: Seq<u8>) -> bool {
    d.len() >= 4 && 40 <= announced_header_len(d) <= d.len() - 4
}

/// The message `m` is what the bytes `d` hold.
pub open spec fn ratchet_message_decodes_to(d: Seq<u8>, m: RatchetMessage) -> bool {
    let hl = announced_header_len(d);
    &&& header_decodes_to(d.subrange(4, 4 + hl), m.header)
    &&& m.ciphertext@ == d.subrange(4 + hl, d.len() as int)
}

/// The header length that a ratchet message announces.
pub open spec fn announced_header_len(d: Seq<u8>) -> int {
    read_be32(d.subrange(0, 4)) as int
}

impl MessageHeader {
    pub fn serialize(&self) -> (r: Vec<u8>)
        ensures
            r@ == header_bytes(*self),
    {
        let mut data: Vec<u8> = Vec::new();
        push_bytes(&mut data, &self.dh_ratchet_key);
        push_be32(&mut data, self.previous_counter);
        push_be32(&mut data, self.message_counter);
        data
    }

    /// Reads the first 40 bytes; bytes past them are ignored.
    pub fn deserialize(data: &[u8]) -> (r: Result<Self, SignalError>)
        ensures
            r is Ok <==> data@.len() >= 40,
            r matches Ok(h) ==> header_decodes_to(data@, h),
            r matches Err(e) ==> e == SignalError::MalformedMessage,
    {
        if data.len() < 40 {
            return Err(SignalError::MalformedMessage);
        }
        Ok(MessageHeader {
            dh_ratchet_key: copy_32(data, 0),
            previous_counter: get_be32(data, 32),
            message_counter: get_be32(data, 36),
        })
    }
}

impl RatchetMessage {
    pub fn serialize(&self) -> (r: Vec<u8>)
        ensures
            r@ == ratchet_message_bytes(*self),
    {
        let header = self.header.serialize();
        let mut data: Vec<u8> = Vec::new();
        push_be32(&mut data, header.len() as u32);
        push_bytes(&mut data, header.as_slice());
        push_bytes(&mut data, self.ciphertext.as_slice());
        data
    }

    /// Reads the header of the announced length and takes the rest as the
    /// ciphertext. Fails with `MalformedMessage` when the bytes are shorter
    /// than announced or the header is shorter than 40 bytes.
    pub fn deserialize(data: &[u8]) -> (r: Result<Self, SignalError>)
        ensures
            r is Ok <==> ratchet_message_complete(data@),
            r matches Ok(m) ==> ratchet_message_decodes_to(data@, m),
            r matches Err(e) ==> e == SignalError::MalformedMessage,
    {
        if data.len() < 4 {
            return Err(SignalError::MalformedMessage);
        }
        let header_len = get_be32(data, 0) as usize;
        if data.len() - 4 < header_len {
            return Err(SignalError::MalformedMessage);
        }
        let header_bytes = copy_range(data, 4, 4 + header_len);
        let header = MessageHeader::deserialize(header_bytes.as_slice())?;
        assert(header_bytes@.subrange(0, 40) =~= data@.subrange(4, 4 + header_len as int).subrange(0, 40));
        let ciphertext = copy_range(data, 4 + header_len, data.len());
        Ok(RatchetMessage { header, ciphertext })
    }
}

/// Reading back a serialized ratchet message gives its header and
/// ciphertext.
pub proof fn lemma_ratchet_message_round_trip(m: RatchetMessage)
    ensures
        ({
            let d = ratchet_message_bytes(m);
            &&& d.len() >= 4 && 40 <= announced_header_len(d) <= d.len() - 4
            &&& forall|h: MessageHeader|
                #[trigger] header_decodes_to(d.subrange(4, 4 + announced_header_len(d)), h) ==> h
                    == m.header
            &&& d.subrange(4 + announced_header_len(d), d.len() as int) == m.ciphertext@
        }),
{
    let d = ratchet_message_bytes(m);
    let hb = header_bytes(m.header);
    lemma_be32_round_trip(40);
    lemma_be32_round_trip(m.header.previous_counter);
    lemma_be32_round_trip(m.header.message_counter);
    assert(d.subrange(0, 4) =~= be32(40));
    assert(d.subrange(4, 44) =~= hb);
    assert(hb.subrange(0, 32) =~= m.header.dh_ratchet_key@);
    assert(hb.subrange(32, 36) =~= be32(m.header.previous_counter));
    assert(hb.subrange(36, 40) =~= be32(m.header.message_counter));
    assert(d.subrange(44, d.len() as int) =~= m.ciphertext@);
    assert forall|h: MessageHeader| #[trigger] header_decodes_to(d.subrange(4, 44), h) implies h
        == m.header by {
        assert(h.dh_ratchet_key@ =~= m.header.dh_ratchet_key@);
        assert(h.dh_ratchet_key =~= m.header.dh_ratchet_key);
    }
}

/// No entry from `from` on matches: nothing is found.
pub proof fn lemma_first_skipped_none(sk: Seq<SkippedKey>, remote: Seq<u8>, counter: u32, from: int)
    requires
        0 <= from,
        forall|i: int| from <= i < sk.len() ==> !entry_is(#[trigger] sk[i], remote, counter),
    ensures
        first_skipped_from(sk, remote, counter, from) is None,
    decreases sk.len() - from,
{
    if from < sk.len() {
        lemma_first_skipped_none(sk, remote, counter, from + 1);
    }
}

/// The first matching entry from `from` on is found.
pub proof fn lemma_first_skipped_at(sk: Seq<SkippedKey>, remote: Seq<u8>, counter: u32, from: int, at: int)
    requires
        0 <= from <= at < sk.len(),
        entry_is(sk[at], remote, counter),
        forall|i: int| from <= i < at ==> !entry_is(#[trigger] sk[i], remote, counter),
    ensures
        first_skipped_from(sk, remote, counter, from) == Some(at),
    decreases at - from,
{
    if from < at {
        lemma_first_skipped_at(sk, remote, counter, from + 1, at);
    }
}

/// Session `b` reads what session `a` sends next: its receiving chain is
/// `a`'s sending chain at the same counter under `a`'s ratchet key, and it
/// stores no key of that chain at or past the counter.
pub open spec fn delivers_to(a: SessionState, b: SessionState) -> bool {
    &&& a.sending_chain() is Some
    &&& b.receiving_chain() == a.sending_chain()
    &&& b.remote() == Some(a.ratchet_pair().public_bytes())
    &&& b.receive_count() == a.send_count()
    &&& forall|i: int|
        0 <= i < b.skipped().len() && (#[trigger] b.skipped()[i]).remote_key@
            == a.ratchet_pair().public_bytes() ==> b.skipped()[i].counter < a.send_count()
}

/// Round trip: what one side of an established session encrypts, the other
/// side decrypts to the same plaintext, and the two stay in step for the
/// next message.
pub proof fn lemma_round_trip(
    a: SessionState,
    b: SessionState,
    plaintext: Seq<u8>,
    msg: RatchetMessage,
    a_next: SessionState,
    r: Result<Vec<u8>, SignalError>,
    b_next: SessionState,
)
    requires
        delivers_to(a, b),
        plaintext.len() <= AEAD_MAX_PLAINTEXT,
        a.encrypt_outcome(plaintext, Ok(msg), &a_next),
        b.decrypt_outcome(msg, r, &b_next),
    ensures
        r matches Ok(p) && p@ == plaintext,
        delivers_to(a_next, b_next),
{
    let k = msg.header.dh_ratchet_key@;
    let n = msg.header.message_counter;
    assert forall|i: int| 0 <= i < b.skipped().len() implies !entry_is(
        #[trigger] b.skipped()[i],
        k,
        n,
    ) by {
        if b.skipped()[i].remote_key@ == a.ratchet_pair().public_bytes() {
        }
    }
    lemma_first_skipped_none(b.skipped(), k, n, 0);
    assert(chain_advance(b.receiving_chain()->0, 0) == b.receiving_chain()->0);
    let ck = a.sending_chain()->0;
    assert(b.message_chain(msg.header) == ck);
    if r is Err {
        assert(aes_gcm_seal(cipher_key_of(ck), nonce_of(ck), plaintext) == msg.ciphertext@);
    }
    assert(aes_gcm_seal(cipher_key_of(ck), nonce_of(ck), plaintext) == msg.ciphertext@);
    let nn = b.skipped().len() as int;
    assert(b_next.skipped() =~= b_next.skipped().subrange(0, nn));
}

/// `a` and `b` are the sessions `initialize_alice` and `initialize_bob` make
/// from the secret `shared`, with `b`'s ratchet key as `a`'s remote key.
pub open spec fn fresh_pair(a: SessionState, b: SessionState, shared: Seq<u8>) -> bool {
    let dh = x25519(a.ratchet_pair().secret_bytes(), b.ratchet_pair().public_bytes());
    &&& a.wf()
    &&& b.wf()
    &&& a.remote() == Some(b.ratchet_pair().public_bytes())
    &&& a.root() == next_root_key(shared, dh)
    &&& a.sending_chain() == Some(new_chain_key(shared, dh))
    &&& a.receiving_chain() is None
    &&& a.send_count() == 0 && a.receive_count() == 0 && a.previous_count() == 0
    &&& a.skipped().len() == 0
    &&& b.remote() is None
    &&& b.root() == shared
    &&& b.sending_chain() is None
    &&& b.receiving_chain() is None
    &&& b.send_count() == 0 && b.receive_count() == 0 && b.previous_count() == 0
    &&& b.skipped().len() == 0
}

/// The first message from a new initiator session opens in the new
/// responder session, and the two are then in step: from there on,
/// `lemma_round_trip` and `lemma_out_of_order` apply.
pub proof fn lemma_first_message(
    a: SessionState,
    b: SessionState,
    shared: Seq<u8>,
    plaintext: Seq<u8>,
    msg: RatchetMessage,
    a_next: SessionState,
    r: Result<Vec<u8>, SignalError>,
    b_next: SessionState,
)
    requires
        fresh_pair(a, b, shared),
        plaintext.len() <= AEAD_MAX_PLAINTEXT,
        a.encrypt_outcome(plaintext, Ok(msg), &a_next),
        b.decrypt_outcome(msg, r, &b_next),
    ensures
        r matches Ok(p) && p@ == plaintext,
        delivers_to(a_next, b_next),
{
    let k = msg.header.dh_ratchet_key@;
    let bs = b.ratchet_pair().secret_bytes();
    lemma_first_skipped_none(b.skipped(), k, msg.header.message_counter, 0);
    assert(x25519(bs, a.ratchet_pair().public_bytes()) == x25519(
        a.ratchet_pair().secret_bytes(),
        x25519_base(bs),
    ));
    let ck = a.sending_chain()->0;
    assert(b.chain_for(k) == ck);
    assert(chain_advance(ck, 0) == ck);
    assert(b.message_chain(msg.header) == ck);
    assert(aes_gcm_seal(cipher_key_of(ck), nonce_of(ck), plaintext) == msg.ciphertext@);
    assert(without_remote(b.skipped(), k) =~= Seq::<SkippedKey>::empty()) by {
        reveal(Seq::filter);
    }
}

/// Nothing found means no entry from `from` on matches.
pub proof fn lemma_first_skipped_absent(sk: Seq<SkippedKey>, remote: Seq<u8>, counter: u32, from: int)
    requires
        0 <= from,
        first_skipped_from(sk, remote, counter, from) is None,
    ensures
        forall|i: int| from <= i < sk.len() ==> !entry_is(#[trigger] sk[i], remote, counter),
    decreases sk.len() - from,
{
    if from < sk.len() {
        lemma_first_skipped_absent(sk, remote, counter, from + 1);
    }
}

/// After a message is read along its chain, no key for it is stored.
proof fn lemma_read_slot_gone(s: SessionState, h: MessageHeader, t: SessionState)
    requires
        s.wf(),
        s.receive_failure(h) is None,
        s.advanced(h, &t),
        first_skipped(s.skipped(), h.dh_ratchet_key@, h.message_counter) is None,
    ensures
        first_skipped(t.skipped(), h.dh_ratchet_key@, h.message_counter) is None,
{
    let k = h.dh_ratchet_key@;
    let base = s.kept_skipped(k);
    let n = base.len() as int;
    let c1 = s.old_chain_skip(h) as int;
    let c2 = skip_count(s.position_for(k), h.message_counter) as int;
    let ts = t.skipped();
    lemma_first_skipped_absent(s.skipped(), k, h.message_counter, 0);
    if s.needs_ratchet(k) {
        lemma_filter_slots(s.skipped(), not_under(k));
    }
    assert forall|x: int| 0 <= x < ts.len() implies !entry_is(#[trigger] ts[x], k, h.message_counter) by {
        if x < n {
            assert(ts.subrange(0, n)[x] == ts[x]);
            if s.needs_ratchet(k) {
                assert(s.skipped().contains(base[x]));
            } else {
                assert(base[x] == s.skipped()[x]);
            }
        } else if x < n + c1 {
            assert(ts.subrange(n, n + c1)[x - n] == ts[x]);
            assert(s.skips_old_chain(k));
        } else {
            assert(ts.subrange(n + c1, n + c1 + c2)[x - n - c1] == ts[x]);
        }
    }
    lemma_first_skipped_none(ts, k, h.message_counter, 0);
}

/// No replay: once a message of the receiving chain has been read, reading
/// it again is refused with `DecryptionFailure` and changes nothing.
pub proof fn lemma_no_replay(
    s: SessionState,
    m: RatchetMessage,
    p: Vec<u8>,
    t: SessionState,
    r: Result<Vec<u8>, SignalError>,
    u: SessionState,
)
    requires
        s.wf(),
        s.decrypt_outcome(m, Ok(p), &t),
        t.wf(),
        first_skipped(t.skipped(), m.header.dh_ratchet_key@, m.header.message_counter) is None,
        t.remote() == Some(m.header.dh_ratchet_key@),
        t.receiving_chain() is Some,
        t.decrypt_outcome(m, r, &u),
    ensures
        r == Err::<Vec<u8>, SignalError>(SignalError::DecryptionFailure),
        u == t,
{
    let k = m.header.dh_ratchet_key@;
    let n = m.header.message_counter;
    match first_skipped(s.skipped(), k, n) {
        Some(i) => {
            lemma_first_skipped_found(s.skipped(), k, n, 0);
            assert(s.skipped()[i].remote_key@ == k && s.skipped()[i].counter == n);
            assert(t.remote() == s.remote() && t.receive_count() == s.receive_count());
        },
        None => {},
    }
}

/// Out-of-order delivery: of three messages sent in a row, delivering the
/// first, then the third, then the second decrypts all three.
pub proof fn lemma_out_of_order(
    a0: SessionState,
    b0: SessionState,
    text0: Seq<u8>,
    text1: Seq<u8>,
    text2: Seq<u8>,
    m0: RatchetMessage,
    m1: RatchetMessage,
    m2: RatchetMessage,
    a1: SessionState,
    a2: SessionState,
    a3: SessionState,
    r0: Result<Vec<u8>, SignalError>,
    r2: Result<Vec<u8>, SignalError>,
    r1: Result<Vec<u8>, SignalError>,
    b1: SessionState,
    b2: SessionState,
    b3: SessionState,
)
    requires
        delivers_to(a0, b0),
        text0.len() <= AEAD_MAX_PLAINTEXT,
        text1.len() <= AEAD_MAX_PLAINTEXT,
        text2.len() <= AEAD_MAX_PLAINTEXT,
        a0.encrypt_outcome(text0, Ok(m0), &a1),
        a1.encrypt_outcome(text1, Ok(m1), &a2),
        a2.encrypt_outcome(text2, Ok(m2), &a3),
        b0.decrypt_outcome(m0, r0, &b1),
        b1.decrypt_outcome(m2, r2, &b2),
        b2.decrypt_outcome(m1, r1, &b3),
    ensures
        r0 matches Ok(p) && p@ == text0,
        r2 matches Ok(p) && p@ == text2,
        r1 matches Ok(p) && p@ == text1,
{
    lemma_round_trip(a0, b0, text0, m0, a1, r0, b1);
    let k = a1.ratchet_pair().public_bytes();
    let c1 = a1.send_count();
    let ck1 = a1.sending_chain()->0;
    let ck2 = a2.sending_chain()->0;
    // The third message skips one key of the chain.
    assert forall|i: int| 0 <= i < b1.skipped().len() implies !entry_is(
        #[trigger] b1.skipped()[i],
        k,
        m2.header.message_counter,
    ) by {
        if b1.skipped()[i].remote_key@ == k {
        }
    }
    lemma_first_skipped_none(b1.skipped(), k, m2.header.message_counter, 0);
    assert(skip_count(c1, (c1 + 1) as u32) == 1);
    assert(chain_advance(ck1, 1) == next_chain_key(chain_advance(ck1, 0)));
    assert(b1.message_chain(m2.header) == ck2);
    assert(aes_gcm_seal(cipher_key_of(ck2), nonce_of(ck2), text2) == m2.ciphertext@);
    // The second message is opened with the stored key.
    let n1 = b1.skipped().len() as int;
    assert(b2.skipped().subrange(n1, n1 + 1)[0] == b2.skipped()[n1]);
    assert(holds_keys_of(b2.skipped()[n1], k, c1 as int, chain_advance(ck1, 0)));
    assert forall|i: int| 0 <= i < n1 implies !entry_is(#[trigger] b2.skipped()[i], k, c1) by {
        assert(b2.skipped()[i] == b2.skipped().subrange(0, n1)[i]);
        if b1.skipped()[i].remote_key@ == k {
        }
    }
    lemma_first_skipped_at(b2.skipped(), k, c1, 0, n1);
    let e = b2.skipped()[n1];
    assert(e.iv@.subrange(0, 12) == nonce_of(ck1));
    assert(aes_gcm_seal(e.cipher_key@, e.iv@.subrange(0, 12), text1) == m1.ciphertext@);
}

/// The skip bound: a message on the current receiving chain whose counter
/// lies more than `MAX_SKIP` past the receiving counter, and for which no
/// key is stored, is refused with `TooManySkippedMessages`, and the state,
/// its receiving counter included, is unchanged.
pub proof fn lemma_skip_bound(s: SessionState, m: RatchetMessage, r: Result<Vec<u8>, SignalError>, t: SessionState)
    requires
        s.decrypt_outcome(m, r, &t),
        s.remote() == Some(m.header.dh_ratchet_key@),
        s.receiving_chain() is Some,
        first_skipped(s.skipped(), m.header.dh_ratchet_key@, m.header.message_counter) is None,
        m.header.message_counter > s.receive_count() + MAX_SKIP,
    ensures
        r == Err::<Vec<u8>, SignalError>(SignalError::TooManySkippedMessages),
        t == s,
        t.receive_count() == s.receive_count(),
{
}

/// An optional 32-byte key: a flag byte, then the key when present.
pub open spec fn flag_field(o: Option<Seq<u8>>) -> Seq<u8> {
    match o {
        Some(k) => seq![1u8] + k,
        None => seq![0u8],
    }
}

/// Stored form of a skipped key.
pub open spec fn entry_bytes(e: SkippedKey) -> Seq<u8> {
    e.remote_key@ + (be32(e.counter) + (e.cipher_key@ + (e.mac_key@ + (e.iv@ + be64(
        e.timestamp as u64,
    )))))
}

/// Stored form of a list of skipped keys.
pub open spec fn entries_bytes(s: Seq<SkippedKey>) -> Seq<u8>
    decreases s.len(),
{
    if s.len() == 0 {
        Seq::empty()
    } else {
        entry_bytes(s[0]) + entries_bytes(s.drop_first())
    }
}

pub proof fn lemma_entries_push(s: Seq<SkippedKey>, e: SkippedKey)
    ensures
        entries_bytes(s.push(e)) == entries_bytes(s) + entry_bytes(e),
    decreases s.len(),
{
    if s.len() == 0 {
        assert(s.push(e).drop_first() =~= Seq::<SkippedKey>::empty());
        assert(s.push(e)[0] == e);
        assert(entries_bytes(Seq::<SkippedKey>::empty()) == Seq::<u8>::empty());
        assert(entries_bytes(s) == Seq::<u8>::empty());
        assert(entries_bytes(s.push(e)) == entry_bytes(e) + entries_bytes(s.push(e).drop_first()));
        assert(entries_bytes(s.push(e)) =~= entry_bytes(e));
    } else {
        lemma_entries_push(s.drop_first(), e);
        assert(s.push(e).drop_first() =~= s.drop_first().push(e));
        assert(entries_bytes(s.push(e)) =~= entries_bytes(s) + entry_bytes(e));
    }
}

/// Whether `d` begins with `p`.
pub open spec fn starts_with(d: Seq<u8>, p: Seq<u8>) -> bool {
    p.len() <= d.len() && d.subrange(0, p.len() as int) == p
}

fn push_flagged(out: &mut Vec<u8>, o: &Option<[u8; 32]>)
    ensures
        final(out)@ == old(out)@ + flag_field(opt_bytes(*o)),
{
    match o {
        Some(k) => {
            out.push(1u8);
            push_bytes(out, k);
        },
        None => {
            out.push(0u8);
        },
    }
    assert(out@ =~= old(out)@ + flag_field(opt_bytes(*o)));
}

/// Reads an optional key at `off`.
fn read_flagged(data: &[u8], off: usize) -> (r: Result<(Option<[u8; 32]>, usize), SignalError>)
    requires
        off <= data@.len(),
    ensures
        r matches Ok((o, next)) ==> off <= next <= data@.len() && data@.subrange(off as int, next as int)
            == flag_field(opt_bytes(o)),
        forall|x: Option<Seq<u8>>|
            (x matches Some(k) ==> k.len() == 32) && #[trigger] starts_with(
                data@.subrange(off as int, data@.len() as int),
                flag_field(x),
            ) ==> (r matches Ok((o, next)) && opt_bytes(o) == x && next == off + flag_field(x).len()),
        r matches Err(e) ==> e == SignalError::MalformedMessage,
{
    let len = data.len();
    if off >= len {
        return Err(SignalError::MalformedMessage);
    }
    let ghost d = data@.subrange(off as int, len as int);
    assert(d[0] == data@[off as int]);
    if data[off] == 0u8 {
        assert(data@.subrange(off as int, off + 1) =~= seq![0u8]);
        assert forall|x: Option<Seq<u8>>|
            (x matches Some(k) ==> k.len() == 32) && #[trigger] starts_with(d, flag_field(x)) implies x is None by {
            assert(d.subrange(0, flag_field(x).len() as int)[0] == flag_field(x)[0]);
        }
        Ok((None, off + 1))
    } else if data[off] == 1u8 {
        if len - off - 1 < 32 {
            assert forall|x: Option<Seq<u8>>|
                (x matches Some(k) ==> k.len() == 32) && #[trigger] starts_with(d, flag_field(x)) implies false by {
                if x is None {
                    assert(d.subrange(0, 1)[0] == 0u8);
                }
            }
            return Err(SignalError::MalformedMessage);
        }
        let k = copy_32(data, off + 1);
        assert(data@.subrange(off as int, off + 33) =~= seq![1u8] + k@);
        assert forall|x: Option<Seq<u8>>|
            (x matches Some(kk) ==> kk.len() == 32) && #[trigger] starts_with(d, flag_field(x)) implies opt_bytes(Some(k)) == x by {
            if x is None {
                assert(d.subrange(0, 1)[0] == 0u8);
            } else {
                assert(d.subrange(0, 33) =~= data@.subrange(off as int, off + 33));
                assert(x->0 =~= d.subrange(0, 33).subrange(1, 33));
            }
        }
        Ok((Some(k), off + 33))
    } else {
        assert forall|x: Option<Seq<u8>>|
            (x matches Some(k) ==> k.len() == 32) && #[trigger] starts_with(d, flag_field(x)) implies false by {
            assert(d.subrange(0, flag_field(x).len() as int)[0] == flag_field(x)[0]);
        }
        Err(SignalError::MalformedMessage)
    }
}

/// The stored form of a session up to its skipped keys.
pub open spec fn head_bytes(
    secret: Seq<u8>,
    remote: Option<Seq<u8>>,
    root: Seq<u8>,
    sending: Option<Seq<u8>>,
    receiving: Option<Seq<u8>>,
    counters: (u32, u32, u32),
    count: u64,
) -> Seq<u8> {
    secret + flag_field(remote) + root + flag_field(sending) + flag_field(receiving) + be32(counters.0)
        + be32(counters.1) + be32(counters.2) + be64(count)
}

/// Length of one stored skipped key.
pub const ENTRY_LEN: usize = 124;

impl SessionState {
    /// The stored form of the session: ratchet secret, remote key, root key,
    /// both chain keys, the three counters, and the skipped keys with their
    /// count.
    #[verifier::opaque]
    pub open spec fn encoding(&self) -> Seq<u8> {
        self.ratchet_pair().secret_bytes() + self.tail_remote()
    }

    pub open spec fn tail_remote(&self) -> Seq<u8> {
        flag_field(self.remote()) + self.tail_root()
    }

    pub open spec fn tail_root(&self) -> Seq<u8> {
        self.root() + self.tail_sending()
    }

    pub open spec fn tail_sending(&self) -> Seq<u8> {
        flag_field(self.sending_chain()) + self.tail_receiving()
    }

    pub open spec fn tail_receiving(&self) -> Seq<u8> {
        flag_field(self.receiving_chain()) + self.tail_counters()
    }

    pub open spec fn tail_counters(&self) -> Seq<u8> {
        be32(self.send_count()) + (be32(self.receive_count()) + (be32(self.previous_count()) + (be64(
            self.skipped().len() as u64,
        ) + entries_bytes(self.skipped()))))
    }

    /// The stored form splits into its head and its skipped keys.
    #[verifier::rlimit(100)]
    #[verifier::spinoff_prover]
    pub proof fn lemma_encoding_split(&self)
        ensures
            self.encoding() == head_bytes(
                self.ratchet_pair().secret_bytes(),
                self.remote(),
                self.root(),
                self.sending_chain(),
                self.receiving_chain(),
                (self.send_count(), self.receive_count(), self.previous_count()),
                self.skipped().len() as u64,
            ) + entries_bytes(self.skipped()),
    {
        let a = self.ratchet_pair().secret_bytes();
        let b = flag_field(self.remote());
        let c = self.root();
        let d = flag_field(self.sending_chain());
        let e = flag_field(self.receiving_chain());
        let f = be32(self.send_count());
        let g = be32(self.receive_count());
        let h = be32(self.previous_count());
        let i = be64(self.skipped().len() as u64);
        let j = entries_bytes(self.skipped());
        reveal(SessionState::encoding);
        assert(self.tail_counters() =~= (f + g + h + i) + j);
        assert(self.tail_receiving() =~= (e + f + g + h + i) + j);
        assert(self.tail_sending() =~= (d + e + f + g + h + i) + j);
        assert(self.tail_root() =~= (c + d + e + f + g + h + i) + j);
        assert(self.tail_remote() =~= (b + c + d + e + f + g + h + i) + j);
        assert(self.encoding() =~= (a + b + c + d + e + f + g + h + i) + j);
    }

    /// The stored form of the session.
    #[verifier::rlimit(60)]
    pub fn serialize(&self) -> (r: Vec<u8>)
        requires
            self.wf(),
        ensures
            r@ == self.encoding(),
    {
        let mut data: Vec<u8> = Vec::new();
        push_bytes(&mut data, &self.dh_self.private_key_bytes());
        push_flagged(&mut data, &self.dh_remote);
        push_bytes(&mut data, &self.root_key);
        push_flagged(&mut data, &self.sending_chain_key);
        push_flagged(&mut data, &self.receiving_chain_key);
        push_be32(&mut data, self.sending_counter);
        push_be32(&mut data, self.receiving_counter);
        push_be32(&mut data, self.previous_counter);
        push_be64(&mut data, self.skipped_keys.len() as u64);
        let ghost head = data@;
        assert(head =~= head_bytes(
            self.ratchet_pair().secret_bytes(),
            self.remote(),
            self.root(),
            self.sending_chain(),
            self.receiving_chain(),
            (self.send_count(), self.receive_count(), self.previous_count()),
            self.skipped().len() as u64,
        ));
        let mut i: usize = 0;
        while i < self.skipped_keys.len()
            invariant
                i <= self.skipped_keys@.len(),
                data@ == head + entries_bytes(self.skipped_keys@.subrange(0, i as int)),
            decreases self.skipped_keys@.len() - i,
        {
            let e = &self.skipped_keys[i];
            let ghost before = data@;
            push_bytes(&mut data, &e.remote_key);
            push_be32(&mut data, e.counter);
            push_bytes(&mut data, &e.cipher_key);
            push_bytes(&mut data, &e.mac_key);
            push_bytes(&mut data, &e.iv);
            push_be64(&mut data, e.timestamp as u64);
            proof {
                assert(data@ =~= before + entry_bytes(self.skipped_keys@[i as int]));
                lemma_entries_push(self.skipped_keys@.subrange(0, i as int), self.skipped_keys@[i as int]);
                assert(self.skipped_keys@.subrange(0, i + 1) =~= self.skipped_keys@.subrange(0, i as int).push(
                    self.skipped_keys@[i as int],
                ));
            }
            i = i + 1;
        }
        assert(self.skipped_keys@.subrange(0, self.skipped_keys@.len() as int) =~= self.skipped_keys@);
        proof {
            self.lemma_encoding_split();
        }
        data
    }
}

fn read_entry(data: &[u8], off: usize) -> (e: SkippedKey)
    requires
        off + ENTRY_LEN <= data@.len(),
    ensures
        entry_bytes(e) == data@.subrange(off as int, off + ENTRY_LEN),
{
    let _len = data.len();
    let remote_key = copy_32(data, off);
    let counter = get_be32(data, off + 32);
    let cipher_key = copy_32(data, off + 36);
    let mac_key = copy_32(data, off + 68);
    let iv = copy_16(data, off + 100);
    let raw = get_be64(data, off + 116);
    let timestamp = raw as i64;
    let e = SkippedKey { remote_key, counter, cipher_key, mac_key, iv, timestamp };
    proof {
        let d = data@.subrange(off as int, off + ENTRY_LEN);
        lemma_be32_inverse(data@.subrange(off + 32, off + 36));
        lemma_be64_inverse(data@.subrange(off + 116, off + 124));
        assert((raw as i64) as u64 == raw) by (bit_vector);
        assert(entry_bytes(e) =~= d);
    }
    e
}

/// Two skipped keys with the same stored form are equal.
pub proof fn lemma_entry_injective(x: SkippedKey, y: SkippedKey)
    requires
        entry_bytes(x) == entry_bytes(y),
    ensures
        x == y,
{
    let d = entry_bytes(y);
    assert(x.remote_key@ =~= d.subrange(0, 32));
    assert(y.remote_key@ =~= d.subrange(0, 32));
    assert(x.remote_key =~= y.remote_key);
    assert(be32(x.counter) =~= d.subrange(32, 36));
    assert(be32(y.counter) =~= d.subrange(32, 36));
    lemma_be32_round_trip(x.counter);
    lemma_be32_round_trip(y.counter);
    assert(x.cipher_key@ =~= d.subrange(36, 68));
    assert(y.cipher_key@ =~= d.subrange(36, 68));
    assert(x.cipher_key =~= y.cipher_key);
    assert(x.mac_key@ =~= d.subrange(68, 100));
    assert(y.mac_key@ =~= d.subrange(68, 100));
    assert(x.mac_key =~= y.mac_key);
    assert(x.iv@ =~= d.subrange(100, 116));
    assert(y.iv@ =~= d.subrange(100, 116));
    assert(x.iv =~= y.iv);
    assert(be64(x.timestamp as u64) =~= d.subrange(116, 124));
    assert(be64(y.timestamp as u64) =~= d.subrange(116, 124));
    crate::bytes::lemma_be64_round_trip(x.timestamp as u64);
    crate::bytes::lemma_be64_round_trip(y.timestamp as u64);
    let (s, t) = (x.timestamp, y.timestamp);
    assert((s as u64) == (t as u64) ==> s == t) by (bit_vector);
}

/// Two lists with the same stored form are equal.
pub proof fn lemma_entries_injective(a: Seq<SkippedKey>, b: Seq<SkippedKey>)
    requires
        entries_bytes(a) == entries_bytes(b),
        a.len() == b.len(),
    ensures
        a == b,
    decreases a.len(),
{
    if a.len() > 0 {
        let ea = entry_bytes(a[0]);
        let eb = entry_bytes(b[0]);
        assert(ea.len() == ENTRY_LEN && eb.len() == ENTRY_LEN);
        assert(ea =~= entries_bytes(a).subrange(0, ENTRY_LEN as int));
        assert(eb =~= entries_bytes(b).subrange(0, ENTRY_LEN as int));
        lemma_entry_injective(a[0], b[0]);
        assert(entries_bytes(a.drop_first()) =~= entries_bytes(a).subrange(ENTRY_LEN as int, entries_bytes(a).len() as int));
        assert(entries_bytes(b.drop_first()) =~= entries_bytes(b).subrange(ENTRY_LEN as int, entries_bytes(b).len() as int));
        lemma_entries_injective(a.drop_first(), b.drop_first());
        assert(a =~= seq![a[0]] + a.drop_first());
        assert(b =~= seq![b[0]] + b.drop_first());
    } else {
        assert(a =~= b);
    }
}

/// Reads `count` stored skipped keys filling `data[start..]` exactly.
fn read_entries(data: &[u8], start: usize, count: u64) -> (r: Result<Vec<SkippedKey>, SignalError>)
    requires
        start <= data@.len(),
    ensures
        r matches Ok(v) ==> v@.len() == count && entries_bytes(v@) == data@.subrange(
            start as int,
            data@.len() as int,
        ),
        forall|s: Seq<SkippedKey>|
            s.len() == count && #[trigger] entries_bytes(s) == data@.subrange(start as int, data@.len() as int)
                ==> (r matches Ok(v) && v@ == s),
        r matches Err(e) ==> e == SignalError::MalformedMessage,
{
    let len = data.len();
    let ghost has_w = exists|s: Seq<SkippedKey>|
        s.len() == count && #[trigger] entries_bytes(s) == data@.subrange(start as int, len as int);
    let ghost w = choose|s: Seq<SkippedKey>|
        s.len() == count && #[trigger] entries_bytes(s) == data@.subrange(start as int, len as int);
    proof {
        if has_w {
            assert(w.subrange(0, w.len() as int) =~= w);
            assert(w.subrange(0, 0) =~= Seq::<SkippedKey>::empty());
        }
    }
    let mut skipped_keys: Vec<SkippedKey> = Vec::new();
    let mut at: usize = start;
    let mut i: u64 = 0;
    assert(data@.subrange(start as int, start as int) =~= Seq::<u8>::empty());
    while i < count
        invariant
            start <= at <= len == data@.len(),
            i <= count,
            skipped_keys@.len() == i,
            data@.subrange(start as int, at as int) == entries_bytes(skipped_keys@),
            has_w == exists|x: Seq<SkippedKey>|
                x.len() == count && #[trigger] entries_bytes(x) == data@.subrange(start as int, len as int),
            has_w ==> w.len() == count && entries_bytes(w) == data@.subrange(start as int, len as int),
            has_w ==> skipped_keys@ == w.subrange(0, i as int),
            has_w ==> data@.subrange(at as int, len as int) == entries_bytes(w.subrange(i as int, w.len() as int)),
        decreases count - i,
    {
        let ghost rest = w.subrange(i as int, w.len() as int);
        proof {
            if has_w {
                assert(rest[0] == w[i as int]);
                assert(rest.drop_first() =~= w.subrange(i + 1, w.len() as int));
                assert(entries_bytes(rest) == entry_bytes(rest[0]) + entries_bytes(rest.drop_first()));
                assert(entry_bytes(rest[0]).len() == ENTRY_LEN);
            }
        }
        if len - at < ENTRY_LEN {
            proof {
                assert(!has_w) by {
                    if has_w {
                        assert(data@.subrange(at as int, len as int).len() >= ENTRY_LEN);
                    }
                }
                assert forall|x: Seq<SkippedKey>|
                    x.len() == count && #[trigger] entries_bytes(x) == data@.subrange(start as int, data@.len() as int)
                        implies false by {
                    assert(x.len() == count && entries_bytes(x) == data@.subrange(start as int, len as int));
                }
            }
            return Err(SignalError::MalformedMessage);
        }
        let e = read_entry(data, at);
        proof {
            if has_w {
                let whole = entry_bytes(rest[0]) + entries_bytes(rest.drop_first());
                assert(data@.subrange(at as int, len as int) == whole);
                assert(data@.subrange(at as int, at + ENTRY_LEN) =~= whole.subrange(0, ENTRY_LEN as int));
                assert(whole.subrange(0, ENTRY_LEN as int) =~= entry_bytes(rest[0]));
                lemma_entry_injective(w[i as int], e);
                assert(data@.subrange(at + ENTRY_LEN, len as int) =~= whole.subrange(
                    ENTRY_LEN as int,
                    whole.len() as int,
                ));
                assert(whole.subrange(ENTRY_LEN as int, whole.len() as int) =~= entries_bytes(rest.drop_first()));
                assert(w.subrange(0, i + 1) =~= w.subrange(0, i as int).push(e));
            }
            lemma_entries_push(skipped_keys@, e);
            assert(data@.subrange(start as int, at + ENTRY_LEN) =~= data@.subrange(start as int, at as int)
                + data@.subrange(at as int, at + ENTRY_LEN));
        }
        skipped_keys.push(e);
        at = at + ENTRY_LEN;
        i = i + 1;
    }
    if at != len {
        proof {
            assert(!has_w) by {
                if has_w {
                    assert(w.subrange(i as int, w.len() as int) =~= Seq::<SkippedKey>::empty());
                    assert(entries_bytes(Seq::<SkippedKey>::empty()) == Seq::<u8>::empty());
                }
            }
            assert forall|x: Seq<SkippedKey>|
                x.len() == count && #[trigger] entries_bytes(x) == data@.subrange(start as int, data@.len() as int)
                    implies false by {
                assert(x.len() == count && entries_bytes(x) == data@.subrange(start as int, len as int));
            }
        }
        return Err(SignalError::MalformedMessage);
    }
    proof {
        assert forall|s: Seq<SkippedKey>|
            s.len() == count && #[trigger] entries_bytes(s) == data@.subrange(start as int, len as int)
                implies skipped_keys@ == s by {
            lemma_entries_injective(s, skipped_keys@);
        }
    }
    Ok(skipped_keys)
}

impl SessionState {
    /// Whether no two stored keys share a slot and the stored keys of the
    /// current chain lie below the receiving counter.
    fn skipped_consistent(&self) -> (r: bool)
        ensures
            r == (slots_unique(self.skipped()) && behind(self.skipped(), self.remote(), self.receive_count())),
    {
        let n = self.skipped_keys.len();
        let mut i: usize = 0;
        while i < n
            invariant
                i <= n == self.skipped_keys@.len(),
                forall|a: int|
                    0 <= a < i && self.remote() == Some((#[trigger] self.skipped_keys@[a]).remote_key@)
                        ==> self.skipped_keys@[a].counter < self.receive_count(),
                forall|a: int, b: int|
                    0 <= a < i && 0 <= b < n && a != b ==> !same_slot(
                        #[trigger] self.skipped_keys@[a],
                        #[trigger] self.skipped_keys@[b],
                    ),
            decreases n - i,
        {
            let e = &self.skipped_keys[i];
            match &self.dh_remote {
                Some(k) => {
                    if eq_32(k, &e.remote_key) && e.counter >= self.receiving_counter {
                        return false;
                    }
                },
                None => {},
            }
            let mut j: usize = 0;
            while j < n
                invariant
                    i < n == self.skipped_keys@.len(),
                    j <= n,
                    e == self.skipped_keys@[i as int],
                    forall|b: int| 0 <= b < j && b != i ==> !same_slot(
                        self.skipped_keys@[i as int],
                        #[trigger] self.skipped_keys@[b],
                    ),
                decreases n - j,
            {
                let f = &self.skipped_keys[j];
                if j != i && f.counter == e.counter && eq_32(&f.remote_key, &e.remote_key) {
                    assert(same_slot(self.skipped_keys@[i as int], self.skipped_keys@[j as int]));
                    return false;
                }
                j = j + 1;
            }
            proof {
                assert forall|a: int, b: int|
                    0 <= a < i + 1 && 0 <= b < n && a != b implies !same_slot(
                    #[trigger] self.skipped_keys@[a],
                    #[trigger] self.skipped_keys@[b],
                ) by {
                    if a == i {
                    }
                }
            }
            i = i + 1;
        }
        true
    }
}

/// Where the parts of a session's stored form lie.
#[verifier::rlimit(100)]
#[verifier::spinoff_prover]
proof fn lemma_layout(w: SessionState, d: Seq<u8>)
    requires
        w.wf(),
        w.encoding() == d,
    ensures
        ({
            let o1 = 32 + flag_field(w.remote()).len() as int;
            let o2 = o1 + 32;
            let o3 = o2 + flag_field(w.sending_chain()).len() as int;
            let o4 = o3 + flag_field(w.receiving_chain()).len() as int;
            &&& o4 + 20 <= d.len()
            &&& w.skipped().len() <= u64::MAX
            &&& read_be32(d.subrange(o4 + 4, o4 + 8)) == w.receive_count()
            &&& starts_with(d.subrange(32, d.len() as int), flag_field(w.remote()))
            &&& starts_with(d.subrange(o2, d.len() as int), flag_field(w.sending_chain()))
            &&& starts_with(d.subrange(o3, d.len() as int), flag_field(w.receiving_chain()))
            &&& read_be64(d.subrange(o4 + 12, o4 + 20)) == w.skipped().len() as u64
            &&& d.subrange(o4 + 20, d.len() as int) == entries_bytes(w.skipped())
        }),
{
    w.ratchet_pair().lemma_len();
    assert(w.skipped_keys.len() == w.skipped().len());
    reveal(SessionState::encoding);
    let o1 = 32 + flag_field(w.remote()).len() as int;
    let o2 = o1 + 32;
    let o3 = o2 + flag_field(w.sending_chain()).len() as int;
    let o4 = o3 + flag_field(w.receiving_chain()).len() as int;
    let n = d.len() as int;
    assert(d.subrange(32, n) =~= w.tail_remote());
    let f1 = flag_field(w.remote());
    assert((f1 + w.tail_root()).subrange(0, f1.len() as int) =~= f1);
    assert(d.subrange(o1, n) =~= w.tail_root());
    assert(d.subrange(o2, n) =~= w.tail_sending());
    let f2 = flag_field(w.sending_chain());
    assert((f2 + w.tail_receiving()).subrange(0, f2.len() as int) =~= f2);
    assert(d.subrange(o3, n) =~= w.tail_receiving());
    let f3 = flag_field(w.receiving_chain());
    assert((f3 + w.tail_counters()).subrange(0, f3.len() as int) =~= f3);
    assert(d.subrange(o4, n) =~= w.tail_counters());
    assert(d.subrange(o4 + 4, o4 + 8) =~= be32(w.receive_count()));
    lemma_be32_round_trip(w.receive_count());
    assert(d.subrange(o4 + 12, o4 + 20) =~= be64(w.skipped().len() as u64));
    crate::bytes::lemma_be64_round_trip(w.skipped().len() as u64);
    assert(d.subrange(o4 + 20, n) =~= entries_bytes(w.skipped()));
}

/// The parsed parts of a stored session, laid end to end, give its stored form.
#[verifier::rlimit(100)]
#[verifier::spinoff_prover]
proof fn lemma_assemble(d: Seq<u8>, t: SessionState, off1: int, off2: int, off3: int, off: int)
    requires
        32 <= off1 <= off2 <= off3 <= off,
        off + 20 <= d.len(),
        d.subrange(0, 32) == t.ratchet_pair().secret_bytes(),
        d.subrange(32, off1) == flag_field(t.remote()),
        d.subrange(off1, off2) == t.root(),
        d.subrange(off2, off3) == flag_field(t.sending_chain()),
        d.subrange(off3, off) == flag_field(t.receiving_chain()),
        t.send_count() == read_be32(d.subrange(off, off + 4)),
        t.receive_count() == read_be32(d.subrange(off + 4, off + 8)),
        t.previous_count() == read_be32(d.subrange(off + 8, off + 12)),
        t.skipped().len() as u64 == read_be64(d.subrange(off + 12, off + 20)),
        d.subrange(off + 20, d.len() as int) == entries_bytes(t.skipped()),
    ensures
        t.encoding() == d,
{
    lemma_be32_inverse(d.subrange(off, off + 4));
    lemma_be32_inverse(d.subrange(off + 4, off + 8));
    lemma_be32_inverse(d.subrange(off + 8, off + 12));
    lemma_be64_inverse(d.subrange(off + 12, off + 20));
    let head = head_bytes(
        t.ratchet_pair().secret_bytes(),
        t.remote(),
        t.root(),
        t.sending_chain(),
        t.receiving_chain(),
        (t.send_count(), t.receive_count(), t.previous_count()),
        t.skipped().len() as u64,
    );
    assert(d.subrange(0, off + 20) =~= head);
    t.lemma_encoding_split();
    assert(d =~= d.subrange(0, off + 20) + d.subrange(off + 20, d.len() as int));
}

impl SessionState {
    /// Reads a stored session. It succeeds exactly on the stored form of a
    /// well-formed session, and what it returns has that stored form; the
    /// public ratchet key is recomputed from the secret.
    #[verifier::rlimit(100)]
    #[verifier::spinoff_prover]
    pub fn deserialize(data: &[u8]) -> (r: Result<Self, SignalError>)
        ensures
            r matches Ok(t) ==> t.wf() && t.encoding() == data@,
            (exists|s: SessionState| s.wf() && #[trigger] s.encoding() == data@) ==> r is Ok,
            r matches Err(e) ==> e == SignalError::MalformedMessage,
    {
        let ghost has_w = exists|s: SessionState| s.wf() && #[trigger] s.encoding() == data@;
        let ghost w = choose|s: SessionState| s.wf() && #[trigger] s.encoding() == data@;
        let len = data.len();
        proof {
            if has_w {
                lemma_layout(w, data@);
            }
        }
        if len < 32 {
            return Err(SignalError::MalformedMessage);
        }
        let secret = copy_32(data, 0);
        let (dh_remote, off1) = read_flagged(data, 32)?;
        if len - off1 < 32 {
            return Err(SignalError::MalformedMessage);
        }
        let root_key = copy_32(data, off1);
        let off2 = off1 + 32;
        let (sending_chain_key, off3) = read_flagged(data, off2)?;
        let (receiving_chain_key, off) = read_flagged(data, off3)?;
        if len - off < 20 {
            return Err(SignalError::MalformedMessage);
        }
        let sending_counter = get_be32(data, off);
        let receiving_counter = get_be32(data, off + 4);
        let previous_counter = get_be32(data, off + 8);
        let count = get_be64(data, off + 12);
        let entries_start = off + 20;
        let skipped_keys = read_entries(data, entries_start, count)?;
        let t = SessionState {
            dh_self: DhKeyPair::from_private_key(secret),
            dh_remote,
            root_key,
            sending_chain_key,
            receiving_chain_key,
            sending_counter,
            receiving_counter,
            previous_counter,
            skipped_keys,
        };
        proof {
            assert(data@.subrange(off1 as int, off2 as int) == root_key@);
            lemma_assemble(data@, t, off1 as int, off2 as int, off3 as int, off as int);
            if has_w {
                assert(t.skipped() == w.skipped());
                assert(t.remote() == w.remote());
                assert(t.receive_count() == w.receive_count());
            }
        }
        if !t.skipped_consistent() {
            return Err(SignalError::MalformedMessage);
        }
        Ok(t)
    }
}

} // verus!
