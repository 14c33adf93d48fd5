use vstd::prelude::*;

use crate::error::ArklibError;
use crate::text::push_char;

verus! {

/// The lowercase hex digit for a value below sixteen.
pub open spec fn hex_digit(n: int) -> char {
    if n < 10 {
        (n + 48) as char
    } else {
        (n + 87) as char
    }
}

/// Two lowercase hex digits per byte, high nibble first.
pub open spec fn hex_of(b: Seq<u8>) -> Seq<char> {
    Seq::new(
        2 * b.len(),
        |i: int|
            if i % 2 == 0 {
                hex_digit(b[i / 2] as int / 16)
            } else {
                hex_digit(b[i / 2] as int % 16)
            },
    )
}

/// A hex digit, either case.
pub open spec fn is_hex_char(c: char) -> bool {
    ('0' <= c && c <= '9') || ('a' <= c && c <= 'f') || ('A' <= c && c <= 'F')
}

/// The value of a hex digit.
pub open spec fn hex_value(c: char) -> int {
    if '0' <= c && c <= '9' {
        c as int - 48
    } else if 'a' <= c && c <= 'f' {
        c as int - 87
    } else {
        c as int - 55
    }
}

/// Whether a text is a well-formed hex encoding: even length, hex digits only.
pub open spec fn is_hex_text(s: Seq<char>) -> bool {
    &&& s.len() % 2 == 0
    &&& forall|i: int| 0 <= i < s.len() ==> is_hex_char(#[trigger] s[i])
}

/// The bytes that a well-formed hex text encodes.
pub open spec fn bytes_of_hex(s: Seq<char>) -> Seq<u8> {
    Seq::new(
        s.len() / 2,
        |i: int| (hex_value(s[2 * i]) * 16 + hex_value(s[2 * i + 1])) as u8,
    )
}

/// The content identifier of a resource: the bytes of a digest.
#[derive(Debug, Clone, PartialEq, Eq, PartialOrd, Ord, Hash)]
pub struct Hash {
    bytes: Vec<u8>,
}

impl View for Hash {
    type V = Seq<u8>;

    closed spec fn view(&self) -> Seq<u8> {
        self.bytes@
    }
}

impl Hash {
    /// An id made of the given digest bytes.
    pub fn new(bytes: Vec<u8>) -> (r: Hash)
        ensures
            r@ == bytes@,
    {
        Hash { bytes }
    }

    /// The digest bytes.
    pub fn as_bytes(&self) -> (r: &Vec<u8>)
        ensures
            r@ == self@,
    {
        &self.bytes
    }

    /// Whether two ids hold the same bytes.
    pub fn same(&self, other: &Hash) -> (r: bool)
        ensures
            r == (self@ == other@),
    {
        if self.bytes.len() != other.bytes.len() {
            return false;
        }
        let mut i: usize = 0;
        while i < self.bytes.len()
            invariant
                self@.len() == other@.len(),
                0 <= i <= self@.len(),
                forall|j: int| 0 <= j < i ==> self@[j] == other@[j],
            decreases self@.len() - i,
        {
            if self.bytes[i] != other.bytes[i] {
                return false;
            }
            i = i + 1;
        }
        assert(self@ =~= other@);
        true
    }

    /// A copy holding the same bytes.
    pub fn duplicate(&self) -> (r: Hash)
        ensures
            r@ == self@,
    {
        Hash { bytes: self.bytes.clone() }
    }

    /// The canonical text form: lowercase hex, two digits per byte.
    pub fn to_hex_string(&self) -> (r: String)
        ensures
            r@ == hex_of(self@),
    {
        let mut s = String::new();
        let mut i: usize = 0;
        while i < self.bytes.len()
            invariant
                0 <= i <= self@.len(),
                s@ =~= hex_of(self@.subrange(0, i as int)),
            decreases self@.len() - i,
        {
            let b = self.bytes[i];
            let hi = hex_char(b / 16);
            let lo = hex_char(b % 16);
            push_char(&mut s, hi);
            push_char(&mut s, lo);
            proof {
                let p = self@.subrange(0, i as int);
                let q = self@.subrange(0, i + 1);
                assert forall|k: int| 0 <= k < 2 * q.len() implies #[trigger] s@[k] == hex_of(q)[k] by {
                    if k < 2 * i {
                        assert(q[k / 2] == p[k / 2]);
                    } else if k == 2 * i {
                        assert(k / 2 == i);
                    } else {
                        assert(k / 2 == i);
                    }
                }
                assert(s@ =~= hex_of(q));
            }
            i = i + 1;
        }
        assert(self@.subrange(0, self@.len() as int) =~= self@);
        s
    }

    /// Parses the text form. Fails with `Parse` on an odd length or on a
    /// character that is not a hex digit; either case of digit is accepted.
    pub fn from_hex(s: &str) -> (r: Result<Hash, ArklibError>)
        ensures
            is_hex_text(s@) ==> (r matches Ok(h) && h@ == bytes_of_hex(s@)),
            !is_hex_text(s@) ==> r matches Err(ArklibError::Parse),
    {
        let n = s.unicode_len();
        if n % 2 != 0 {
            return Err(ArklibError::Parse);
        }
        let mut bytes: Vec<u8> = Vec::new();
        let mut i: usize = 0;
        while i < n / 2
            invariant
                n == s@.len(),
                n % 2 == 0,
                0 <= i <= n / 2,
                bytes@.len() == i,
                forall|j: int| 0 <= j < 2 * i ==> is_hex_char(#[trigger] s@[j]),
                forall|j: int| 0 <= j < i ==> #[trigger] bytes@[j] == bytes_of_hex(s@)[j],
            decreases n / 2 - i,
        {
            let c1 = s.get_char(2 * i);
            let c2 = s.get_char(2 * i + 1);
            match (hex_char_value(c1), hex_char_value(c2)) {
                (Some(hi), Some(lo)) => {
                    bytes.push(hi * 16 + lo);
                },
                _ => {
                    proof {
                        if !is_hex_char(c1) {
                            assert(!is_hex_char(s@[2 * i]));
                        } else {
                            assert(!is_hex_char(s@[2 * i + 1]));
                        }
                    }
                    return Err(ArklibError::Parse);
                },
            }
            proof {
                assert forall|j: int| 0 <= j < 2 * (i + 1) implies is_hex_char(#[trigger] s@[j]) by {
                    if j >= 2 * i {
                    }
                }
            }
            i = i + 1;
        }
        assert(bytes@ =~= bytes_of_hex(s@));
        Ok(Hash { bytes })
    }
}

impl std::str::FromStr for Hash {
    type Err = ArklibError;

    fn from_str(s: &str) -> Result<Hash, ArklibError> {
        Hash::from_hex(s)
    }
}

/// A digit's value survives the trip through its lowercase character.
proof fn lemma_hex_digit_value(n: int)
    requires
        0 <= n < 16,
    ensures
        is_hex_char(hex_digit(n)),
        hex_value(hex_digit(n)) == n,
{
}

/// The text form of an id parses back to the same id.
pub proof fn lemma_hex_round_trip(b: Seq<u8>)
    ensures
        is_hex_text(hex_of(b)),
        bytes_of_hex(hex_of(b)) == b,
{
    let t = hex_of(b);
    assert forall|i: int| 0 <= i < t.len() implies is_hex_char(#[trigger] t[i]) by {
        let x = b[i / 2] as int;
        lemma_hex_digit_value(x / 16);
        lemma_hex_digit_value(x % 16);
    }
    assert(t.len() % 2 == 0);
    assert forall|i: int| 0 <= i < b.len() implies #[trigger] bytes_of_hex(t)[i] == b[i] by {
        let x = b[i] as int;
        assert((2 * i) / 2 == i);
        assert((2 * i + 1) / 2 == i);
        assert((2 * i) % 2 == 0);
        assert((2 * i + 1) % 2 == 1);
        lemma_hex_digit_value(x / 16);
        lemma_hex_digit_value(x % 16);
        assert(t[2 * i] == hex_digit(x / 16));
        assert(t[2 * i + 1] == hex_digit(x % 16));
        assert((x / 16) * 16 + x % 16 == x);
    }
    assert(bytes_of_hex(t) =~= b);
}

/// The hex digit for a value below sixteen.
fn hex_char(n: u8) -> (c: char)
    requires
        n < 16,
    ensures
        c == hex_digit(n as int),
{
    if n < 10 {
        (n + 48) as char
    } else {
        (n + 87) as char
    }
}

/// The value of a hex digit, or `None` for any other character.
fn hex_char_value(c: char) -> (r: Option<u8>)
    ensures
        is_hex_char(c) ==> (r matches Some(v) && v as int == hex_value(c) && v < 16),
        !is_hex_char(c) ==> r is None,
{
    let x = c as u32;
    if '0' <= c && c <= '9' {
        Some((x - 48) as u8)
    } else if 'a' <= c && c <= 'f' {
        Some((x - 87) as u8)
    } else if 'A' <= c && c <= 'F' {
        Some((x - 55) as u8)
    } else {
        None
    }
}

/// The digest that BLAKE3 computes for the given bytes.
pub uninterp spec fn blake3_of(b: Seq<u8>) -> Seq<u8>;

/// Relies on `blake3::hash`: the 32-byte BLAKE3 digest of the input, a
/// function of the bytes alone.
#[verifier::external_body]
fn blake3_digest(bytes: &[u8]) -> (r: Vec<u8>)
    ensures
        r@ == blake3_of(bytes@),
        r@.len() == 32,
{
    blake3::hash(bytes).as_bytes().to_vec()
}

/// The hasher that produces resource ids: BLAKE3 over the file's bytes.
pub struct ResourceId {}

impl ResourceId {
    /// The id of the given bytes.
    pub fn from_bytes(bytes: &[u8]) -> (r: Result<Hash, ArklibError>)
        ensures
            r matches Ok(h) && h@ == blake3_of(bytes@) && h@.len() == 32,
    {
        Ok(Hash { bytes: blake3_digest(bytes) })
    }
}

} // verus!
