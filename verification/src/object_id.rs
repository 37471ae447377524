//! The store's native object identifier: twelve bytes, shown to the
//! outside as a 24-character hexadecimal string.

use vstd::prelude::*;
use crate::scalars::is_digit;

verus! {

/// Whether `c` is a hexadecimal digit (either case).
pub open spec fn is_hex_digit(c: char) -> bool {
    is_digit(c) || ('a' <= c && c <= 'f') || ('A' <= c && c <= 'F')
}

/// The numeric value of a hexadecimal digit.
pub open spec fn hex_digit_val(c: char) -> int {
    if is_digit(c) {
        c as int - '0' as int
    } else if 'a' <= c && c <= 'f' {
        c as int - 'a' as int + 10
    } else {
        c as int - 'A' as int + 10
    }
}

/// The lowercase hexadecimal digit for a value below sixteen.
pub open spec fn hex_char_of(v: int) -> char {
    if v == 0 {
        '0'
    } else if v == 1 {
        '1'
    } else if v == 2 {
        '2'
    } else if v == 3 {
        '3'
    } else if v == 4 {
        '4'
    } else if v == 5 {
        '5'
    } else if v == 6 {
        '6'
    } else if v == 7 {
        '7'
    } else if v == 8 {
        '8'
    } else if v == 9 {
        '9'
    } else if v == 10 {
        'a'
    } else if v == 11 {
        'b'
    } else if v == 12 {
        'c'
    } else if v == 13 {
        'd'
    } else if v == 14 {
        'e'
    } else {
        'f'
    }
}

/// The lowercase hexadecimal rendering of a byte sequence: two digits per
/// byte, high digit first.
pub open spec fn hex_of(b: Seq<u8>) -> Seq<char> {
    Seq::new(
        b.len() * 2,
        |i: int|
            if i % 2 == 0 {
                hex_char_of(b[i / 2] as int / 16)
            } else {
                hex_char_of(b[i / 2] as int % 16)
            },
    )
}

/// The bytes read from an even-length hexadecimal string.
pub open spec fn bytes_of_hex(s: Seq<char>) -> Seq<u8> {
    Seq::new(s.len() / 2, |i: int| (hex_digit_val(s[2 * i]) * 16 + hex_digit_val(s[2 * i + 1])) as u8)
}

/// Reading back the lowercase rendering of a byte sequence recovers it.
pub proof fn lemma_hex_round_trip(b: Seq<u8>)
    ensures
        bytes_of_hex(hex_of(b)) =~= b,
        forall|i: int| 0 <= i < hex_of(b).len() ==> is_hex_digit(#[trigger] hex_of(b)[i]),
{
    assert forall|i: int| 0 <= i < b.len() implies bytes_of_hex(hex_of(b))[i] == b[i] by {
        assert(hex_of(b)[2 * i] == hex_char_of(b[i] as int / 16));
        assert(hex_of(b)[2 * i + 1] == hex_char_of(b[i] as int % 16));
    }
    assert forall|i: int| 0 <= i < hex_of(b).len() implies is_hex_digit(#[trigger] hex_of(b)[i]) by {
        if i % 2 == 0 {
            assert(hex_of(b)[i] == hex_char_of(b[i / 2] as int / 16));
        } else {
            assert(hex_of(b)[i] == hex_char_of(b[i / 2] as int % 16));
        }
    }
}

/// A native object identifier: twelve raw bytes. Its view is the byte
/// sequence.
#[derive(Debug)]
pub struct ObjectId {
    bytes: Vec<u8>,
}

impl View for ObjectId {
    type V = Seq<u8>;

    closed spec fn view(&self) -> Seq<u8> {
        self.bytes@
    }
}

/// Relies on `bson::oid::ObjectId::parse_str` and `bytes`: the parse
/// succeeds exactly on a string of 24 hexadecimal digits (either case) and
/// yields the bytes those digit pairs spell.
#[verifier::external_body]
fn bson_oid_parse(s: &str) -> (r: Option<Vec<u8>>)
    ensures
        r is Some <==> (s@.len() == 24 && forall|i: int|
            0 <= i < s@.len() ==> is_hex_digit(#[trigger] s@[i])),
        r is Some ==> r->0@ == bytes_of_hex(s@) && r->0@.len() == 12,
{
    bson::oid::ObjectId::parse_str(s).ok().map(|o| o.bytes().to_vec())
}

/// Relies on `bson::oid::ObjectId::to_hex`: the result is the lowercase
/// hexadecimal rendering of the twelve bytes.
#[verifier::external_body]
fn bson_oid_to_hex(bytes: &Vec<u8>) -> (r: String)
    requires
        bytes@.len() == 12,
    ensures
        r@ == hex_of(bytes@),
{
    let mut raw = [0u8; 12];
    raw.copy_from_slice(bytes);
    bson::oid::ObjectId::from_bytes(raw).to_hex()
}

impl ObjectId {
    /// Whether the identifier holds exactly twelve bytes.
    pub open spec fn wf(&self) -> bool {
        self@.len() == 12
    }

    /// Wraps twelve raw bytes.
    pub fn from_bytes(bytes: Vec<u8>) -> (r: ObjectId)
        requires
            bytes@.len() == 12,
        ensures
            r@ == bytes@,
            r.wf(),
    {
        ObjectId { bytes }
    }

    /// Parses the 24-digit hexadecimal form; `None` on anything else.
    pub fn parse_str(s: &str) -> (r: Option<ObjectId>)
        ensures
            r is Some <==> (s@.len() == 24 && forall|i: int|
                0 <= i < s@.len() ==> is_hex_digit(#[trigger] s@[i])),
            r is Some ==> r->0@ == bytes_of_hex(s@) && r->0.wf(),
    {
        match bson_oid_parse(s) {
            Some(bytes) => Some(ObjectId { bytes }),
            None => None,
        }
    }

    /// The lowercase 24-digit hexadecimal form.
    pub fn to_hex(&self) -> (r: String)
        requires
            self.wf(),
        ensures
            r@ == hex_of(self@),
    {
        bson_oid_to_hex(&self.bytes)
    }

    /// Whether two identifiers hold the same bytes.
    pub fn same_as(&self, other: &ObjectId) -> (r: bool)
        ensures
            r == (self@ == other@),
    {
        let mut i: usize = 0;
        if self.bytes.len() != other.bytes.len() {
            proof {
                assert(self@.len() != other@.len());
            }
            return false;
        }
        while i < self.bytes.len()
            invariant
                0 <= i <= self@.len(),
                self@.len() == other@.len(),
                forall|j: int| 0 <= j < i ==> self@[j] == other@[j],
            decreases self@.len() - i,
        {
            if self.bytes[i] != other.bytes[i] {
                return false;
            }
            i += 1;
        }
        proof {
            assert(self@ =~= other@);
        }
        true
    }

    /// The raw bytes.
    pub fn bytes_ref(&self) -> (r: &Vec<u8>)
        ensures
            r@ == self@,
    {
        &self.bytes
    }

    /// The raw bytes, consuming the identifier.
    pub fn into_bytes(self) -> (r: Vec<u8>)
        ensures
            r@ == self@,
    {
        self.bytes
    }

    /// An identical copy.
    pub fn duplicate(&self) -> (r: ObjectId)
        ensures
            r@ == self@,
    {
        let mut bytes: Vec<u8> = Vec::new();
        let mut i: usize = 0;
        while i < self.bytes.len()
            invariant
                0 <= i <= self@.len(),
                bytes@ =~= self@.subrange(0, i as int),
            decreases self@.len() - i,
        {
            bytes.push(self.bytes[i]);
            i += 1;
        }
        proof {
            assert(bytes@ =~= self@);
        }
        ObjectId { bytes }
    }
}

} // verus!
