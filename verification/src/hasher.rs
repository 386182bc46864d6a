use vstd::prelude::*;
use vstd::string::*;
use crate::error::StoreError;

verus! {

/// The SHA-1 hash of a byte sequence, as the `sha1` crate computes it.
pub uninterp spec fn sha1(data: Seq<u8>) -> Seq<u8>;

/// The lowercase hexadecimal digit for a value below sixteen.
pub open spec fn hex_digit(n: int) -> char {
    if n < 10 {
        (48 + n) as char
    } else {
        (87 + n) as char
    }
}

/// The lowercase hexadecimal text of a byte sequence: two digits per byte,
/// the high half first.
pub open spec fn hex_string(bytes: Seq<u8>) -> Seq<char> {
    Seq::new(
        2 * bytes.len(),
        |i: int|
            if i % 2 == 0 {
                hex_digit(bytes[i / 2] as int / 16)
            } else {
                hex_digit(bytes[i / 2] as int % 16)
            },
    )
}

/// The value of a lowercase hexadecimal digit.
pub open spec fn hex_value(c: char) -> Option<u8> {
    if '0' <= c <= '9' {
        Some((c as int - 48) as u8)
    } else if 'a' <= c <= 'f' {
        Some((c as int - 87) as u8)
    } else {
        None
    }
}

/// Whether every character is a lowercase hexadecimal digit.
pub open spec fn all_hex(text: Seq<char>) -> bool {
    forall|i: int| 0 <= i < text.len() ==> hex_value(#[trigger] text[i]) is Some
}

/// Reads the hexadecimal form of a digest: forty lowercase hexadecimal
/// digits, two for each of the twenty bytes.  `None` for any other text.
pub open spec fn parse_hex(text: Seq<char>) -> Option<Seq<u8>> {
    if text.len() == 40 && all_hex(text) {
        Some(
            Seq::new(
                20,
                |i: int|
                    (hex_value(text[2 * i]).unwrap() * 16 + hex_value(text[2 * i + 1]).unwrap()) as u8,
            ),
        )
    } else {
        None
    }
}

/// The identity of a stored object: twenty bytes.
#[derive(Debug, Clone, Copy, PartialEq, Eq, Hash)]
pub struct Digest {
    pub bytes: [u8; 20],
}

impl View for Digest {
    type V = Seq<u8>;

    open spec fn view(&self) -> Seq<u8> {
        self.bytes@
    }
}

/// Calls `sha1::Sha1` (`new`, `update`, `finalize`) on `data`.  The contract
/// names the outcome `sha1(data)`: the hash depends on the bytes alone.  Its
/// length, twenty, is carried by the array type.
#[verifier::external_body]
fn sha1_bytes(data: &[u8]) -> (out: [u8; 20])
    ensures
        out@ == sha1(data@),
{
    let mut state = <sha1::Sha1 as sha1::Digest>::new();
    sha1::Digest::update(&mut state, data);
    sha1::Digest::finalize(state).into()
}

/// Calls `hex::encode` on `bytes`.  The contract repeats its documentation:
/// each byte becomes two lowercase hexadecimal digits, high half first.
#[verifier::external_body]
fn hex_encode(bytes: &[u8]) -> (text: String)
    ensures
        text@ == hex_string(bytes@),
{
    hex::encode(bytes)
}

/// Computes digests.
pub struct Hasher;

impl Hasher {
    /// The digest of `data`.  Equal inputs give equal digests, and every
    /// byte sequence, the empty one included, has one.
    pub fn digest(data: &[u8]) -> (d: Digest)
        ensures
            d@ == sha1(data@),
    {
        Digest { bytes: sha1_bytes(data) }
    }
}

fn hex_value_of(b: u8) -> (r: Option<u8>)
    requires
        b < 128,
    ensures
        r == hex_value(b as char),
        r matches Some(v) ==> v < 16,
{
    if 48 <= b && b <= 57 {
        Some(b - 48)
    } else if 97 <= b && b <= 102 {
        Some(b - 87)
    } else {
        None
    }
}

/// A hexadecimal digit, read back, gives the value it was written for.
pub proof fn lemma_hex_digit_value(n: int)
    requires
        0 <= n < 16,
    ensures
        hex_value(hex_digit(n)) == Some(n as u8),
        hex_digit(n) <= '\u{7f}',
{
}

/// The only characters with a hexadecimal value are the digits themselves.
pub proof fn lemma_hex_value_digit(c: char)
    requires
        hex_value(c) is Some,
    ensures
        hex_value(c).unwrap() < 16,
        hex_digit(hex_value(c).unwrap() as int) == c,
{
}

/// Reading the hexadecimal form of twenty bytes gives the bytes back.
pub proof fn lemma_hex_round_trip(bytes: Seq<u8>)
    requires
        bytes.len() == 20,
    ensures
        parse_hex(hex_string(bytes)) == Some(bytes),
{
    let text = hex_string(bytes);
    assert forall|i: int| 0 <= i < text.len() implies hex_value(#[trigger] text[i]) is Some by {
        lemma_hex_digit_value(bytes[i / 2] as int / 16);
        lemma_hex_digit_value(bytes[i / 2] as int % 16);
    }
    assert forall|i: int| 0 <= i < 20 implies (hex_value(text[2 * i]).unwrap() * 16 + hex_value(
        text[2 * i + 1],
    ).unwrap()) as u8 == bytes[i] by {
        lemma_hex_digit_value(bytes[i] as int / 16);
        lemma_hex_digit_value(bytes[i] as int % 16);
        assert((2 * i) / 2 == i && (2 * i + 1) / 2 == i);
    }
    assert(parse_hex(text).unwrap() =~= bytes);
}

/// A text that reads as a digest is the hexadecimal form of that digest,
/// and of no other.
pub proof fn lemma_parse_hex_exact(text: Seq<char>)
    requires
        parse_hex(text) is Some,
    ensures
        parse_hex(text).unwrap().len() == 20,
        hex_string(parse_hex(text).unwrap()) == text,
{
    let bytes = parse_hex(text).unwrap();
    assert forall|k: int| 0 <= k < 40 implies hex_string(bytes)[k] == text[k] by {
        let i = k / 2;
        lemma_hex_value_digit(text[2 * i]);
        lemma_hex_value_digit(text[2 * i + 1]);
        let h = hex_value(text[2 * i]).unwrap();
        let l = hex_value(text[2 * i + 1]).unwrap();
        assert(bytes[i] == (h * 16 + l) as u8);
        assert((h * 16 + l) / 16 == h && (h * 16 + l) % 16 == l);
    }
    assert(hex_string(bytes) =~= text);
}

impl Digest {
    /// The digest as raw bytes.
    pub fn as_bytes(&self) -> (bytes: &[u8; 20])
        ensures
            bytes@ == self@,
    {
        &self.bytes
    }

    /// The digest that `bytes` holds, where there are exactly twenty.
    pub fn from_bytes(bytes: &[u8]) -> (r: Option<Digest>)
        ensures
            match r {
                Some(d) => d@ == bytes@,
                None => bytes@.len() != 20,
            },
    {
        if bytes.len() != 20 {
            return None;
        }
        let mut out: [u8; 20] = [0u8; 20];
        let mut i: usize = 0;
        while i < 20
            invariant
                i <= 20,
                bytes@.len() == 20,
                forall|j: int| 0 <= j < i ==> out@[j] == bytes@[j],
            decreases 20 - i,
        {
            out[i] = bytes[i];
            i += 1;
        }
        let d = Digest { bytes: out };
        assert(d@ =~= bytes@);
        Some(d)
    }

    /// Whether two digests are the same.
    pub fn same(&self, other: &Digest) -> (r: bool)
        ensures
            r == (self@ == other@),
    {
        let mut i: usize = 0;
        while i < 20
            invariant
                i <= 20,
                forall|j: int| 0 <= j < i ==> self.bytes@[j] == other.bytes@[j],
            decreases 20 - i,
        {
            if self.bytes[i] != other.bytes[i] {
                return false;
            }
            i += 1;
        }
        assert(self@ =~= other@);
        true
    }

    /// The forty-character lowercase hexadecimal form.
    pub fn to_hex(&self) -> (text: String)
        ensures
            text@ == hex_string(self@),
            text@.len() == 40,
    {
        hex_encode(self.bytes.as_slice())
    }

    /// Reads the hexadecimal form back.  Succeeds exactly on the texts that
    /// `to_hex` produces, forty lowercase hexadecimal digits, and reports
    /// every other text as `InvalidArgument`.
    pub fn from_hex(text: &str) -> (r: Result<Digest, StoreError>)
        ensures
            match parse_hex(text@) {
                Some(bytes) => r matches Ok(d) && d@ == bytes && hex_string(d@) == text@,
                None => r == Err::<Digest, StoreError>(StoreError::InvalidArgument),
            },
    {
        if !text.is_ascii() {
            proof {
                if all_hex(text@) {
                    assert forall|i: int| 0 <= i < text@.len() implies '\0' <= #[trigger] text@[i]
                        <= '\u{7f}' by {
                        assert(hex_value(text@[i]) is Some);
                    }
                    assert(is_ascii(text));
                }
            }
            return Err(StoreError::InvalidArgument);
        }
        let bytes = text.as_bytes();
        proof {
            is_ascii_spec_bytes(text);
        }
        if bytes.len() != 40 {
            return Err(StoreError::InvalidArgument);
        }
        let mut out: [u8; 20] = [0u8; 20];
        let mut i: usize = 0;
        while i < 20
            invariant
                i <= 20,
                bytes@.len() == 40,
                text@.len() == 40,
                is_ascii(text),
                forall|k: int| 0 <= k < 40 ==> bytes@[k] == text@[k] as u8,
                forall|k: int| 0 <= k < 2 * i ==> hex_value(#[trigger] text@[k]) is Some,
                forall|j: int|
                    0 <= j < i ==> #[trigger] out@[j] == (hex_value(text@[2 * j]).unwrap() * 16
                        + hex_value(text@[2 * j + 1]).unwrap()) as u8,
            decreases 20 - i,
        {
            assert(text@[2 * i as int] <= '\u{7f}' && text@[2 * i + 1] <= '\u{7f}');
            let hi = hex_value_of(bytes[2 * i]);
            let lo = hex_value_of(bytes[2 * i + 1]);
            match (hi, lo) {
                (Some(h), Some(l)) => {
                    out[i] = h * 16 + l;
                },
                _ => {
                    return Err(StoreError::InvalidArgument);
                },
            }
            i += 1;
        }
        let d = Digest { bytes: out };
        proof {
            assert(d@ =~= parse_hex(text@).unwrap());
            lemma_parse_hex_exact(text@);
        }
        Ok(d)
    }
}

/// Hashing is a function of the bytes: equal inputs have equal digests.
pub proof fn lemma_digest_deterministic(x: Seq<u8>, y: Seq<u8>)
    requires
        x == y,
    ensures
        sha1(x) == sha1(y),
{
}

} // verus!
