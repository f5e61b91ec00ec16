//! Safety numbers: a human-comparable digest of two identity keys that
//! both parties compute alike.
use vstd::prelude::*;
use vstd::string::StringSliceAdditionalSpecFns;

use crate::bytes::push_bytes;
use crate::keys::IdentityPublicKey;
use crate::primitives::{sha256, sha256_of, string_from_chars};

verus! {

/// Number of hash rounds after the first.
pub const FINGERPRINT_ROUNDS: u32 = 5199;

/// Lexicographic order of byte strings, the order of `str`.
pub open spec fn bytes_less(a: Seq<u8>, b: Seq<u8>) -> bool
    decreases a.len(),
{
    if a.len() == 0 {
        b.len() > 0
    } else if b.len() == 0 {
        false
    } else if a[0] != b[0] {
        a[0] < b[0]
    } else {
        bytes_less(a.drop_first(), b.drop_first())
    }
}

/// `n` rounds of re-hashing the digest together with both keys.
pub open spec fn digest_rounds(h: Seq<u8>, first_key: Seq<u8>, second_key: Seq<u8>, n: nat) -> Seq<u8>
    decreases n,
{
    if n == 0 {
        h
    } else {
        sha256_of(digest_rounds(h, first_key, second_key, (n - 1) as nat) + first_key + second_key)
    }
}

/// The digest of two ordered (label, key) pairs.
pub open spec fn fingerprint_digest(
    first_id: Seq<u8>,
    first_key: Seq<u8>,
    second_id: Seq<u8>,
    second_key: Seq<u8>,
) -> Seq<u8> {
    digest_rounds(
        sha256_of(first_id + first_key + second_id + second_key),
        first_key,
        second_key,
        FINGERPRINT_ROUNDS as nat,
    )
}

/// The five digest bytes of group `i`, read big-endian, modulo 100000.
pub open spec fn group_value(d: Seq<u8>, i: int) -> int {
    let o = (i * 5) % 30;
    (d[o] * 0x1_0000_0000 + d[o + 1] * 0x100_0000 + d[o + 2] * 0x1_0000 + d[o + 3] * 0x100 + d[o
        + 4]) % 100000
}

pub open spec fn digit(v: int) -> char {
    seq!['0', '1', '2', '3', '4', '5', '6', '7', '8', '9'][v]
}

/// A value below 100000 as five decimal digits.
pub open spec fn five_digits(v: int) -> Seq<char> {
    seq![digit(v / 10000), digit(v / 1000 % 10), digit(v / 100 % 10), digit(v / 10 % 10), digit(v % 10)]
}

/// The first `n` groups, separated by spaces.
pub open spec fn groups_text(d: Seq<u8>, n: nat) -> Seq<char>
    decreases n,
{
    if n == 0 {
        Seq::empty()
    } else if n == 1 {
        five_digits(group_value(d, 0))
    } else {
        groups_text(d, (n - 1) as nat) + seq![' '] + five_digits(group_value(d, n - 1))
    }
}

/// The safety number of two identities: the pairs are ordered by label,
/// hashed, and the digest is shown as twelve groups of five digits.
pub open spec fn fingerprint_of(
    local_key: Seq<u8>,
    local_id: Seq<u8>,
    remote_key: Seq<u8>,
    remote_id: Seq<u8>,
) -> Seq<char> {
    if bytes_less(local_id, remote_id) {
        groups_text(fingerprint_digest(local_id, local_key, remote_id, remote_key), 12)
    } else {
        groups_text(fingerprint_digest(remote_id, remote_key, local_id, local_key), 12)
    }
}

/// Two different byte strings are ordered one way or the other.
pub proof fn lemma_bytes_less_total(a: Seq<u8>, b: Seq<u8>)
    requires
        a != b,
    ensures
        bytes_less(a, b) != bytes_less(b, a),
    decreases a.len(),
{
    if a.len() > 0 && b.len() > 0 && a[0] == b[0] {
        assert(a.drop_first() != b.drop_first()) by {
            if a.drop_first() == b.drop_first() {
                assert(a =~= seq![a[0]] + a.drop_first());
                assert(b =~= seq![b[0]] + b.drop_first());
            }
        }
        lemma_bytes_less_total(a.drop_first(), b.drop_first());
    } else if a.len() == 0 && b.len() == 0 {
        assert(a =~= b);
    }
}

/// Symmetry of safety numbers: with two different labels, both parties
/// compute the same safety number.
pub proof fn lemma_fingerprint_symmetric(a_key: Seq<u8>, a_id: Seq<u8>, b_key: Seq<u8>, b_id: Seq<u8>)
    requires
        a_id != b_id,
    ensures
        fingerprint_of(a_key, a_id, b_key, b_id) == fingerprint_of(b_key, b_id, a_key, a_id),
{
    lemma_bytes_less_total(a_id, b_id);
}

fn less_bytes(a: &[u8], b: &[u8]) -> (r: bool)
    ensures
        r == bytes_less(a@, b@),
{
    let mut i: usize = 0;
    assert(a@.subrange(0, a@.len() as int) =~= a@);
    assert(b@.subrange(0, b@.len() as int) =~= b@);
    while i < a.len() && i < b.len()
        invariant
            i <= a@.len() && i <= b@.len(),
            bytes_less(a@, b@) == bytes_less(a@.subrange(i as int, a@.len() as int), b@.subrange(i as int, b@.len() as int)),
        decreases a@.len() - i,
    {
        let ghost sa = a@.subrange(i as int, a@.len() as int);
        let ghost sb = b@.subrange(i as int, b@.len() as int);
        if a[i] != b[i] {
            return a[i] < b[i];
        }
        assert(sa.drop_first() =~= a@.subrange(i + 1, a@.len() as int));
        assert(sb.drop_first() =~= b@.subrange(i + 1, b@.len() as int));
        i = i + 1;
    }
    a.len() < b.len()
}

fn digit_char(v: u64) -> (r: char)
    requires
        v < 10,
    ensures
        r == digit(v as int),
{
    let digits: [char; 10] = ['0', '1', '2', '3', '4', '5', '6', '7', '8', '9'];
    assert(digits@ =~= seq!['0', '1', '2', '3', '4', '5', '6', '7', '8', '9']);
    digits[v as usize]
}

fn group(d: &[u8; 32], i: usize) -> (r: u64)
    requires
        i < 12,
    ensures
        r == group_value(d@, i as int),
        r < 100000,
{
    let o = (i * 5) % 30;
    let v: u64 = (d[o] as u64) * 0x1_0000_0000 + (d[o + 1] as u64) * 0x100_0000 + (d[o + 2] as u64)
        * 0x1_0000 + (d[o + 3] as u64) * 0x100 + (d[o + 4] as u64);
    v % 100000
}

/// The safety number of two identities, each with its label.
pub fn calculate_fingerprint(
    local_identity: &IdentityPublicKey,
    local_identifier: &str,
    remote_identity: &IdentityPublicKey,
    remote_identifier: &str,
) -> (r: String)
    ensures
        r@ == fingerprint_of(
            local_identity@,
            local_identifier.spec_bytes(),
            remote_identity@,
            remote_identifier.spec_bytes(),
        ),
{
    let local_id = local_identifier.as_bytes();
    let remote_id = remote_identifier.as_bytes();
    let local_key = local_identity.as_bytes();
    let remote_key = remote_identity.as_bytes();
    let (first_id, first_key, second_id, second_key) = if less_bytes(local_id, remote_id) {
        (local_id, local_key, remote_id, remote_key)
    } else {
        (remote_id, remote_key, local_id, local_key)
    };
    let mut data: Vec<u8> = Vec::new();
    push_bytes(&mut data, first_id);
    push_bytes(&mut data, &first_key);
    push_bytes(&mut data, second_id);
    push_bytes(&mut data, &second_key);
    let mut hash = sha256(data.as_slice());
    let ghost h0 = hash@;
    let mut round: u32 = 0;
    while round < FINGERPRINT_ROUNDS
        invariant
            round <= FINGERPRINT_ROUNDS,
            hash@ == digest_rounds(h0, first_key@, second_key@, round as nat),
        decreases FINGERPRINT_ROUNDS - round,
    {
        let mut next: Vec<u8> = Vec::new();
        push_bytes(&mut next, &hash);
        push_bytes(&mut next, &first_key);
        push_bytes(&mut next, &second_key);
        hash = sha256(next.as_slice());
        round = round + 1;
    }
    let mut text: Vec<char> = Vec::new();
    let mut i: usize = 0;
    while i < 12
        invariant
            i <= 12,
            text@ == groups_text(hash@, i as nat),
        decreases 12 - i,
    {
        let v = group(&hash, i);
        if i > 0 {
            text.push(' ');
        }
        text.push(digit_char(v / 10000));
        text.push(digit_char(v / 1000 % 10));
        text.push(digit_char(v / 100 % 10));
        text.push(digit_char(v / 10 % 10));
        text.push(digit_char(v % 10));
        i = i + 1;
        assert(text@ =~= groups_text(hash@, i as nat));
    }
    string_from_chars(text.as_slice())
}

} // verus!
