//! Addresses of remote endpoints: a name and a device id, written
//! `name.device_id`.
use vstd::prelude::*;
use vstd::string::{StringExecFns, StringSliceAdditionalSpecFns};
use vstd::utf8::{encode_utf8, is_continuation_byte};

use crate::error::SignalError;
use crate::primitives::{decimal, u32_to_decimal};

verus! {

/// A remote endpoint: user name and device.
pub struct ProtocolAddress {
    pub name: String,
    pub device_id: u32,
}

impl View for ProtocolAddress {
    type V = (Seq<char>, u32);

    open spec fn view(&self) -> (Seq<char>, u32) {
        (self.name@, self.device_id)
    }
}

impl Clone for ProtocolAddress {
    fn clone(&self) -> (r: Self)
        ensures
            r@ == self@,
    {
        ProtocolAddress { name: self.name.clone(), device_id: self.device_id }
    }
}

pub open spec fn is_digit(b: u8) -> bool {
    48 <= b <= 57
}

/// Value of a string of decimal digits.
pub open spec fn digits_value(d: Seq<u8>) -> nat
    decreases d.len(),
{
    if d.len() == 0 {
        0
    } else {
        digits_value(d.drop_last()) * 10 + (d.last() - 48) as nat
    }
}

/// The digits of a number, after an optional leading `+`.
pub open spec fn unsigned_digits(b: Seq<u8>) -> Seq<u8> {
    if b.len() > 0 && b[0] == 43u8 {
        b.drop_first()
    } else {
        b
    }
}

/// The `u32` that the text denotes, in the syntax `u32::from_str` accepts.
pub open spec fn parse_u32(b: Seq<u8>) -> Option<u32> {
    let d = unsigned_digits(b);
    if d.len() > 0 && (forall|i: int| 0 <= i < d.len() ==> is_digit(#[trigger] d[i])) && digits_value(
        d,
    ) <= u32::MAX {
        Some(digits_value(d) as u32)
    } else {
        None
    }
}

/// The index of the last `.` in the bytes.
pub open spec fn last_dot(b: Seq<u8>) -> Option<int>
    decreases b.len(),
{
    if b.len() == 0 {
        None
    } else if b.last() == 46u8 {
        Some(b.len() - 1)
    } else {
        last_dot(b.drop_last())
    }
}

proof fn lemma_last_dot(b: Seq<u8>)
    ensures
        last_dot(b) matches Some(i) ==> 0 <= i < b.len() && b[i] == 46u8 && forall|j: int|
            i < j < b.len() ==> b[j] != 46u8,
        last_dot(b) is None ==> forall|j: int| 0 <= j < b.len() ==> b[j] != 46u8,
    decreases b.len(),
{
    if b.len() > 0 && b.last() != 46u8 {
        lemma_last_dot(b.drop_last());
        assert forall|j: int| 0 <= j < b.len() - 1 implies b[j] == b.drop_last()[j] by {}
    }
}

proof fn lemma_digits_value_grows(d: Seq<u8>, i: int)
    requires
        0 <= i <= d.len(),
        forall|k: int| 0 <= k < d.len() ==> is_digit(#[trigger] d[k]),
    ensures
        digits_value(d.subrange(0, i)) <= digits_value(d),
    decreases d.len(),
{
    if i < d.len() {
        assert(d.drop_last() =~= d.subrange(0, d.len() - 1));
        lemma_digits_value_grows(d.drop_last(), i);
        assert(d.drop_last().subrange(0, i) =~= d.subrange(0, i));
    } else {
        assert(d.subrange(0, i) =~= d);
    }
}

/// Parses the bytes `b[start..]` as `u32::from_str` does.
fn parse_u32_at(b: &[u8], start: usize) -> (r: Option<u32>)
    requires
        start <= b@.len(),
    ensures
        r == parse_u32(b@.subrange(start as int, b@.len() as int)),
{
    let ghost text = b@.subrange(start as int, b@.len() as int);
    let mut i: usize = start;
    if i < b.len() && b[i] == 43u8 {
        i = i + 1;
    }
    let ghost d = b@.subrange(i as int, b@.len() as int);
    assert(unsigned_digits(text) =~= d);
    if i == b.len() {
        return None;
    }
    let first = i;
    let mut v: u64 = 0;
    while i < b.len()
        invariant
            first <= i <= b@.len(),
            d == b@.subrange(first as int, b@.len() as int),
            unsigned_digits(text) == d,
            text == b@.subrange(start as int, b@.len() as int),
            forall|k: int| 0 <= k < i - first ==> is_digit(#[trigger] d[k]),
            v == digits_value(d.subrange(0, i - first)),
            v <= u32::MAX,
        decreases b@.len() - i,
    {
        let c = b[i];
        if c < 48u8 || c > 57u8 {
            assert(d[i - first] == c);
            assert(!is_digit(d[i - first]));
            return None;
        }
        let ghost prefix = d.subrange(0, i - first + 1);
        assert(prefix.drop_last() =~= d.subrange(0, i - first));
        let nv = v * 10 + (c - 48u8) as u64;
        i = i + 1;
        if nv > u32::MAX as u64 {
            proof {
                if forall|k: int| 0 <= k < d.len() ==> is_digit(#[trigger] d[k]) {
                    lemma_digits_value_grows(d, i - first);
                }
            }
            return None;
        }
        v = nv;
    }
    assert(d.subrange(0, d.len() as int) =~= d);
    Some(v as u32)
}

impl ProtocolAddress {
    pub fn new(name: &str, device_id: u32) -> (r: Self)
        ensures
            r.name@ == name@,
            r.device_id == device_id,
    {
        ProtocolAddress { name: name.to_owned(), device_id }
    }

    /// The text form `name.device_id`.
    pub fn to_string(&self) -> (r: String)
        ensures
            r@ == self.name@ + seq!['.'] + decimal(self.device_id as nat),
    {
        let digits = u32_to_decimal(self.device_id);
        let mut s = self.name.clone();
        proof {
            reveal_strlit(".");
        }
        s.append(".");
        s.append(digits.as_str());
        s
    }

    /// Reads `name.device_id`, splitting at the last `.`. Fails with
    /// `MalformedMessage` when there is no `.` or the device id is not a
    /// `u32`.
    pub fn from_string(s: &str) -> (r: Result<Self, SignalError>)
        ensures
            r is Ok <==> (last_dot(s.spec_bytes()) matches Some(i) && parse_u32(
                s.spec_bytes().subrange(i + 1, s.spec_bytes().len() as int),
            ) is Some),
            r matches Ok(a) ==> last_dot(s.spec_bytes()) matches Some(i) && {
                &&& encode_utf8(a.name@) == s.spec_bytes().subrange(0, i)
                &&& Some(a.device_id) == parse_u32(
                    s.spec_bytes().subrange(i + 1, s.spec_bytes().len() as int),
                )
            },
            r matches Err(e) ==> e == SignalError::MalformedMessage,
    {
        let b = s.as_bytes();
        let mut i: usize = b.len();
        proof {
            lemma_last_dot(b@);
        }
        while i > 0 && b[i - 1] != 46u8
            invariant
                i <= b@.len(),
                b@ == s.spec_bytes(),
                forall|j: int| i <= j < b@.len() ==> b@[j] != 46u8,
            decreases i,
        {
            i = i - 1;
        }
        if i == 0 {
            assert(last_dot(b@) is None);
            return Err(SignalError::MalformedMessage);
        }
        let dot = i - 1;
        assert(last_dot(b@) == Some(dot as int));
        let device_id = match parse_u32_at(b, dot + 1) {
            Some(v) => v,
            None => return Err(SignalError::MalformedMessage),
        };
        proof {
            vstd::utf8::encode_utf8_valid_utf8(s@);
            vstd::utf8::is_char_boundary_iff_not_is_continuation_byte(b@, dot as int);
            assert(!is_continuation_byte(46u8));
        }
        let (name_str, _rest) = s.split_at(dot);
        let name = name_str.to_owned();
        assert(name_str.spec_bytes() == encode_utf8(name@));
        Ok(ProtocolAddress { name, device_id })
    }
}

} // verus!
