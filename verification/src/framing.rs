use vstd::prelude::*;
use vstd::slice::slice_subrange;
use crate::error::StoreError;

verus! {

/// The byte that ends a kind tag and a mode.
pub const SPACE: u8 = 32;

/// The byte that ends a header and a name.
pub const NUL: u8 = 0;

/// Whether a byte is an ASCII decimal digit.
pub open spec fn is_digit(b: u8) -> bool {
    48 <= b <= 57
}

/// Whether every byte of a sequence is a decimal digit.
pub open spec fn all_digits(s: Seq<u8>) -> bool {
    forall|i: int| 0 <= i < s.len() ==> is_digit(#[trigger] s[i])
}

/// The decimal text of a number, without leading zeros.
pub open spec fn decimal(n: nat) -> Seq<u8>
    decreases n,
{
    if n < 10 {
        seq![(48 + n) as u8]
    } else {
        decimal(n / 10).push((48 + n % 10) as u8)
    }
}

/// The number that a sequence of digits writes, most significant first.
pub open spec fn digits_value(s: Seq<u8>) -> nat
    decreases s.len(),
{
    if s.len() == 0 {
        0
    } else {
        digits_value(s.drop_last()) * 10 + (s.last() - 48) as nat
    }
}

/// Reads a decimal number: one or more digits and nothing else.  Leading
/// zeros are read; a sign is not.
pub open spec fn parse_decimal(s: Seq<u8>) -> Option<nat> {
    if s.len() > 0 && all_digits(s) {
        Some(digits_value(s))
    } else {
        None
    }
}

/// The index of the first `b` in `s` at or after `from`, or the length of
/// `s` where there is none.
pub open spec fn find_byte(s: Seq<u8>, b: u8, from: int) -> int
    decreases s.len() - from,
{
    if from < 0 || from >= s.len() {
        s.len() as int
    } else if s[from] == b {
        from
    } else {
        find_byte(s, b, from + 1)
    }
}

/// Decimal text is made of digits, at least one of them.
pub proof fn lemma_decimal_digits(n: nat)
    ensures
        decimal(n).len() > 0,
        all_digits(decimal(n)),
    decreases n,
{
    if n >= 10 {
        lemma_decimal_digits(n / 10);
    }
}

/// Reading the decimal text of a number gives the number back.
pub proof fn lemma_parse_decimal_round_trip(n: nat)
    ensures
        parse_decimal(decimal(n)) == Some(n),
    decreases n,
{
    lemma_decimal_digits(n);
    if n >= 10 {
        lemma_parse_decimal_round_trip(n / 10);
        assert(decimal(n).drop_last() =~= decimal(n / 10));
    } else {
        assert(decimal(n).drop_last() =~= Seq::<u8>::empty());
        assert(digits_value(decimal(n).drop_last()) == 0);
    }
}

/// A prefix of a digit sequence writes a number that is no larger.
pub proof fn lemma_digits_value_prefix(s: Seq<u8>, k: int)
    requires
        all_digits(s),
        0 <= k <= s.len(),
    ensures
        digits_value(s.take(k)) <= digits_value(s),
    decreases s.len() - k,
{
    if k < s.len() {
        lemma_digits_value_prefix(s.drop_last(), k);
        assert(s.drop_last().take(k) =~= s.take(k));
    } else {
        assert(s.take(k) =~= s);
    }
}

/// The first `b` at or after `from` is found where it stands.
pub proof fn lemma_find_byte_at(s: Seq<u8>, b: u8, from: int, at: int)
    requires
        0 <= from <= at <= s.len(),
        forall|j: int| from <= j < at ==> s[j] != b,
        at < s.len() ==> s[at] == b,
    ensures
        find_byte(s, b, from) == at,
    decreases at - from,
{
    if from < at {
        lemma_find_byte_at(s, b, from + 1, at);
    }
}

/// Appends `src` to `out`.
pub fn append_bytes(out: &mut Vec<u8>, src: &[u8])
    ensures
        final(out)@ == old(out)@ + src@,
{
    let mut i: usize = 0;
    while i < src.len()
        invariant
            i <= src.len(),
            out@ == old(out)@ + src@.take(i as int),
        decreases src.len() - i,
    {
        out.push(src[i]);
        assert(src@.take(i + 1) =~= src@.take(i as int).push(src@[i as int]));
        i += 1;
    }
    assert(src@.take(i as int) =~= src@);
}

/// Appends the decimal text of `n` to `out`.
pub fn append_decimal(out: &mut Vec<u8>, n: u64)
    ensures
        final(out)@ == old(out)@ + decimal(n as nat),
    decreases n,
{
    if n >= 10 {
        append_decimal(out, n / 10);
    }
    let digit: u8 = 48 + (n % 10) as u8;
    out.push(digit);
    assert(out@ =~= old(out)@ + decimal(n as nat));
}

/// Reads a decimal number that fits in 64 bits.  `None` where the bytes are
/// not one or more digits, or write a larger number.
pub fn read_decimal(digits: &[u8]) -> (r: Option<u64>)
    ensures
        r == match parse_decimal(digits@) {
            Some(v) => if v <= u64::MAX {
                Some(v as u64)
            } else {
                None
            },
            None => None,
        },
{
    if digits.len() == 0 {
        return None;
    }
    let mut value: u64 = 0;
    let mut i: usize = 0;
    while i < digits.len()
        invariant
            i <= digits.len(),
            all_digits(digits@.take(i as int)),
            value == digits_value(digits@.take(i as int)),
        decreases digits.len() - i,
    {
        let b: u8 = digits[i];
        if b < 48 || b > 57 {
            return None;
        }
        let d: u64 = (b - 48) as u64;
        proof {
            assert(digits@.take(i + 1).drop_last() =~= digits@.take(i as int));
            assert(all_digits(digits@.take(i + 1)));
        }
        if value > (u64::MAX - d) / 10 {
            proof {
                if all_digits(digits@) {
                    lemma_digits_value_prefix(digits@, i + 1);
                }
            }
            return None;
        }
        value = value * 10 + d;
        i += 1;
    }
    assert(digits@.take(i as int) =~= digits@);
    Some(value)
}

/// The index of the first `b` in `bytes` at or after `from`, or the length
/// of `bytes` where there is none.
pub fn find(bytes: &[u8], b: u8, from: usize) -> (at: usize)
    ensures
        at == find_byte(bytes@, b, from as int),
        at <= bytes.len(),
        from <= bytes.len() ==> from <= at,
{
    if from >= bytes.len() {
        return bytes.len();
    }
    let mut i: usize = from;
    while i < bytes.len() && bytes[i] != b
        invariant
            from <= i <= bytes.len(),
            find_byte(bytes@, b, from as int) == find_byte(bytes@, b, i as int),
        decreases bytes.len() - i,
    {
        i += 1;
    }
    i
}

/// The two kinds of stored object.
#[derive(Debug, Clone, Copy, PartialEq, Eq, Structural)]
pub enum ObjectKind {
    /// Raw file content.
    Blob,
    /// A directory listing.
    Tree,
}

/// The tag that a header starts with: `blob` or `tree`.
pub open spec fn kind_tag(kind: ObjectKind) -> Seq<u8> {
    match kind {
        ObjectKind::Blob => seq![98u8, 108u8, 111u8, 98u8],
        ObjectKind::Tree => seq![116u8, 114u8, 101u8, 101u8],
    }
}

/// The kind that a tag names, if any.
pub open spec fn tag_kind(tag: Seq<u8>) -> Option<ObjectKind> {
    if tag == kind_tag(ObjectKind::Blob) {
        Some(ObjectKind::Blob)
    } else if tag == kind_tag(ObjectKind::Tree) {
        Some(ObjectKind::Tree)
    } else {
        None
    }
}

/// The framed form of an object: tag, space, decimal payload length, null
/// byte, payload.
pub open spec fn framed(kind: ObjectKind, payload: Seq<u8>) -> Seq<u8> {
    kind_tag(kind) + seq![SPACE] + decimal(payload.len()) + seq![NUL] + payload
}

/// Reads a framed object.  The tag runs up to the first space and must be
/// known; the length runs from there up to the next null byte and must be a
/// decimal number; the payload is everything after that byte and must have
/// exactly the declared length.
pub open spec fn parse_framed(bytes: Seq<u8>) -> Option<(ObjectKind, Seq<u8>)> {
    let space = find_byte(bytes, SPACE, 0);
    let nul = find_byte(bytes, NUL, space + 1);
    if space < bytes.len() && nul < bytes.len() {
        let payload = bytes.skip(nul + 1);
        match tag_kind(bytes.take(space)) {
            Some(kind) => if parse_decimal(bytes.subrange(space + 1, nul)) == Some(payload.len()) {
                Some((kind, payload))
            } else {
                None
            },
            None => None,
        }
    } else {
        None
    }
}

/// Reading a framed object gives back its kind and payload.
pub proof fn lemma_framed_round_trip(kind: ObjectKind, payload: Seq<u8>)
    ensures
        parse_framed(framed(kind, payload)) == Some((kind, payload)),
{
    let tag = kind_tag(kind);
    let digits = decimal(payload.len());
    let bytes = framed(kind, payload);
    lemma_decimal_digits(payload.len());
    lemma_parse_decimal_round_trip(payload.len());
    assert(tag.len() == 4);
    assert(forall|j: int| 0 <= j < 4 ==> bytes[j] == tag[j]);
    assert(bytes[4] == SPACE);
    lemma_find_byte_at(bytes, SPACE, 0, 4);
    let nul = 5 + digits.len() as int;
    assert forall|j: int| 5 <= j < nul implies bytes[j] != NUL by {
        assert(bytes[j] == digits[j - 5]);
        assert(is_digit(digits[j - 5]));
    }
    assert(bytes[nul] == NUL);
    lemma_find_byte_at(bytes, NUL, 5, nul);
    assert(bytes.take(4) =~= tag);
    assert(bytes.subrange(5, nul) =~= digits);
    assert(bytes.skip(nul + 1) =~= payload);
}

fn append_tag(out: &mut Vec<u8>, kind: ObjectKind)
    ensures
        final(out)@ == old(out)@ + kind_tag(kind),
{
    match kind {
        ObjectKind::Blob => {
            out.push(98u8);
            out.push(108u8);
            out.push(111u8);
            out.push(98u8);
        },
        ObjectKind::Tree => {
            out.push(116u8);
            out.push(114u8);
            out.push(101u8);
            out.push(101u8);
        },
    }
    assert(out@ =~= old(out)@ + kind_tag(kind));
}

fn read_tag(tag: &[u8]) -> (r: Option<ObjectKind>)
    ensures
        r == tag_kind(tag@),
{
    if tag.len() != 4 {
        return None;
    }
    if tag[0] == 98u8 && tag[1] == 108u8 && tag[2] == 111u8 && tag[3] == 98u8 {
        assert(tag@ =~= kind_tag(ObjectKind::Blob));
        Some(ObjectKind::Blob)
    } else if tag[0] == 116u8 && tag[1] == 114u8 && tag[2] == 101u8 && tag[3] == 101u8 {
        assert(tag@ =~= kind_tag(ObjectKind::Tree));
        Some(ObjectKind::Tree)
    } else {
        None
    }
}

/// Frames a payload: writes the header for its kind and length before it.
pub fn encode_framed(kind: ObjectKind, payload: &[u8]) -> (out: Vec<u8>)
    ensures
        out@ == framed(kind, payload@),
{
    let mut out: Vec<u8> = Vec::new();
    append_tag(&mut out, kind);
    out.push(SPACE);
    append_decimal(&mut out, payload.len() as u64);
    out.push(NUL);
    append_bytes(&mut out, payload);
    assert(out@ =~= framed(kind, payload@));
    out
}

/// Reads the header of a framed object and returns its kind and payload.
/// Anything that `parse_framed` does not read is `CorruptData`.
pub fn decode_framed(bytes: &[u8]) -> (r: Result<(ObjectKind, &[u8]), StoreError>)
    ensures
        match parse_framed(bytes@) {
            Some((kind, payload)) => r matches Ok((k, p)) && k == kind && p@ == payload,
            None => r == Err::<(ObjectKind, &[u8]), StoreError>(StoreError::CorruptData),
        },
{
    let space = find(bytes, SPACE, 0);
    if space >= bytes.len() {
        return Err(StoreError::CorruptData);
    }
    let nul = find(bytes, NUL, space + 1);
    if nul >= bytes.len() {
        return Err(StoreError::CorruptData);
    }
    let kind = match read_tag(slice_subrange(bytes, 0, space)) {
        Some(kind) => kind,
        None => {
            return Err(StoreError::CorruptData);
        },
    };
    let payload = slice_subrange(bytes, nul + 1, bytes.len());
    match read_decimal(slice_subrange(bytes, space + 1, nul)) {
        Some(size) => {
            if size == payload.len() as u64 {
                Ok((kind, payload))
            } else {
                Err(StoreError::CorruptData)
            }
        },
        None => Err(StoreError::CorruptData),
    }
}

} // verus!
