//! Content-derived object identifiers.

use vstd::prelude::*;
use vstd::std_specs::cmp::PartialEqSpecImpl;

verus! {

/// The fixed-width identifier of a blob, tree or commit, derived from the
/// object's content.
#[derive(Clone, Copy, Debug, Eq, Hash)]
pub struct ObjectId {
    pub bytes: [u8; 20],
}

impl PartialEq for ObjectId {
    fn eq(&self, other: &Self) -> (r: bool) {
        let mut i: usize = 0;
        while i < 20
            invariant
                i <= 20,
                forall|k: int| 0 <= k < i ==> self.bytes[k] == other.bytes[k],
            decreases 20 - i,
        {
            if self.bytes[i] != other.bytes[i] {
                return false;
            }
            i += 1;
        }
        proof {
            assert(self.bytes =~= other.bytes);
        }
        true
    }
}

impl PartialEqSpecImpl for ObjectId {
    open spec fn obeys_eq_spec() -> bool {
        true
    }

    open spec fn eq_spec(&self, other: &Self) -> bool {
        *self == *other
    }
}

/// The value of a hexadecimal digit, in either case.
pub open spec fn hex_value(c: u8) -> Option<u8> {
    if 48 <= c <= 57 {
        Some((c - 48) as u8)
    } else if 97 <= c <= 102 {
        Some((c - 87) as u8)
    } else if 65 <= c <= 70 {
        Some((c - 55) as u8)
    } else {
        None
    }
}

/// Forty hexadecimal digits.
pub open spec fn is_hex_id(s: Seq<u8>) -> bool {
    s.len() == 40 && forall|i: int| 0 <= i < 40 ==> hex_value(#[trigger] s[i]) is Some
}

/// `id` is what the forty digits of `s` spell, two digits to a byte, the high
/// one first.
pub open spec fn spells(s: Seq<u8>, id: ObjectId) -> bool {
    forall|i: int|
        0 <= i < 20 ==> #[trigger] id.bytes[i] as int == 16 * hex_value(s[2 * i]).unwrap()
            + hex_value(s[2 * i + 1]).unwrap()
}

/// The lower-case hexadecimal digit of a value below sixteen.
pub open spec fn hex_digit(n: u8) -> u8 {
    if n < 10 {
        (48 + n) as u8
    } else {
        (87 + n) as u8
    }
}

/// The lower-case hexadecimal spelling of a byte string.
pub open spec fn hex_of(b: Seq<u8>) -> Seq<u8> {
    Seq::new(
        2 * b.len(),
        |i: int|
            if i % 2 == 0 {
                hex_digit(b[i / 2] / 16)
            } else {
                hex_digit(b[i / 2] % 16)
            },
    )
}

fn hex_digit_of(n: u8) -> (r: u8)
    requires
        n < 16,
    ensures
        r == hex_digit(n),
{
    if n < 10 {
        48 + n
    } else {
        87 + n
    }
}

/// `gix::ObjectId::from_hex`: accepts exactly forty hexadecimal digits of
/// either case and decodes them pairwise into the twenty bytes of the id.
#[verifier::external_body]
fn decode_hex_id(hex: &Vec<u8>) -> (r: Option<ObjectId>)
    ensures
        r is Some <==> is_hex_id(hex@),
        r is Some ==> spells(hex@, r.unwrap()),
{
    match gix::ObjectId::from_hex(hex) {
        Ok(gix::ObjectId::Sha1(bytes)) => Some(ObjectId { bytes }),
        _ => None,
    }
}

impl ObjectId {
    /// The id whose bytes are all zero, which names no object.
    pub fn null() -> (r: Self)
        ensures
            forall|i: int| 0 <= i < 20 ==> r.bytes[i] == 0,
    {
        ObjectId { bytes: [0u8; 20] }
    }

    /// Reads an id from its hexadecimal spelling.
    pub fn from_hex(hex: &Vec<u8>) -> (r: Option<Self>)
        ensures
            r is Some <==> is_hex_id(hex@),
            r is Some ==> spells(hex@, r.unwrap()),
    {
        decode_hex_id(hex)
    }

    /// The forty lower-case hexadecimal digits of the id.
    pub fn to_hex(&self) -> (r: Vec<u8>)
        ensures
            r@ == hex_of(self.bytes@),
    {
        let mut out: Vec<u8> = Vec::new();
        let mut i: usize = 0;
        while i < 20
            invariant
                i <= 20,
                out@ == hex_of(self.bytes@.take(i as int)),
            decreases 20 - i,
        {
            let b: u8 = self.bytes[i];
            out.push(hex_digit_of(b / 16));
            out.push(hex_digit_of(b % 16));
            proof {
                assert(out@ =~= hex_of(self.bytes@.take(i as int + 1)));
            }
            i += 1;
        }
        proof {
            assert(self.bytes@.take(20) =~= self.bytes@);
        }
        out
    }
}

} // verus!
