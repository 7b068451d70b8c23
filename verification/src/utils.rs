use vstd::prelude::*;
use vstd::string::StringSliceAdditionalSpecFns;
use vstd::utf8::{decode_utf8, valid_utf8};

use crate::error::SafError;

verus! {

/// The bytes of `s` with every trailing zero byte removed.
pub open spec fn trim_trailing_zeros(s: Seq<u8>) -> Seq<u8>
    decreases s.len(),
{
    if s.len() > 0 && s.last() == 0u8 {
        trim_trailing_zeros(s.drop_last())
    } else {
        s
    }
}

/// The bytes of `s` with every leading zero byte removed.
pub open spec fn trim_leading_zeros(s: Seq<u8>) -> Seq<u8>
    decreases s.len(),
{
    if s.len() > 0 && s.first() == 0u8 {
        trim_leading_zeros(s.drop_first())
    } else {
        s
    }
}

/// The bytes of `s` with zero bytes removed from both ends.
pub open spec fn trim_zeros(s: Seq<u8>) -> Seq<u8> {
    trim_leading_zeros(trim_trailing_zeros(s))
}

/// Relies on `String::from_utf8` (std): it succeeds exactly on valid UTF-8
/// input, and then returns the string whose characters the bytes encode.
#[verifier::external_body]
pub(crate) fn utf8_to_string(bytes: Vec<u8>) -> (r: Option<String>)
    ensures
        r is Some <==> valid_utf8(bytes@),
        r matches Some(s) ==> s@ == decode_utf8(bytes@),
{
    String::from_utf8(bytes).ok()
}

/// Checks that `bytes` starts with the 8-byte tag `expected` and returns
/// that tag; short input and a differing tag are told apart.
pub fn read_magic(bytes: &[u8], expected: &[u8; 8]) -> (r: Result<[u8; 8], SafError>)
    ensures
        r is Ok <==> bytes@.len() >= 8 && bytes@.take(8) == expected@,
        r matches Ok(m) ==> m@ == expected@,
        bytes@.len() < 8 ==> r == Err::<[u8; 8], SafError>(SafError::Truncated),
        bytes@.len() >= 8 && bytes@.take(8) != expected@ ==> r == Err::<[u8; 8], SafError>(
            SafError::InvalidMagic,
        ),
{
    if bytes.len() < 8 {
        return Err(SafError::Truncated);
    }
    let mut i: usize = 0;
    while i < 8
        invariant
            i <= 8,
            bytes@.len() >= 8,
            forall|j: int| 0 <= j < i ==> bytes@[j] == expected@[j],
        decreases 8 - i,
    {
        if bytes[i] != expected[i] {
            assert(bytes@.take(8)[i as int] != expected@[i as int]);
            return Err(SafError::InvalidMagic);
        }
        i += 1;
    }
    assert(bytes@.take(8) =~= expected@);
    Ok([
        bytes[0],
        bytes[1],
        bytes[2],
        bytes[3],
        bytes[4],
        bytes[5],
        bytes[6],
        bytes[7],
    ])
}

/// Decodes a magic tag to text: zero padding is stripped from both ends and
/// the remaining bytes must be valid UTF-8.
pub fn parse_magic(magic: &[u8; 8]) -> (r: Result<String, SafError>)
    ensures
        r is Ok <==> valid_utf8(trim_zeros(magic@)),
        r matches Ok(s) ==> s@ == decode_utf8(trim_zeros(magic@)),
        r is Err ==> r == Err::<String, SafError>(SafError::InvalidMagic),
{
    let mut end: usize = 8;
    assert(magic@.take(8) =~= magic@);
    while end > 0 && magic[end - 1] == 0
        invariant
            end <= 8,
            trim_trailing_zeros(magic@) == trim_trailing_zeros(magic@.take(end as int)),
        decreases end,
    {
        assert(magic@.take(end as int).drop_last() =~= magic@.take(end as int - 1));
        end -= 1;
    }
    assert(trim_trailing_zeros(magic@) == magic@.take(end as int)) by {
        if end > 0 {
            assert(magic@.take(end as int).last() == magic@[end as int - 1]);
        }
    }
    let mut start: usize = 0;
    while start < end && magic[start] == 0
        invariant
            start <= end <= 8,
            trim_leading_zeros(magic@.take(end as int)) == trim_leading_zeros(
                magic@.subrange(start as int, end as int),
            ),
        decreases end - start,
    {
        assert(magic@.subrange(start as int, end as int).drop_first() =~= magic@.subrange(
            start as int + 1,
            end as int,
        ));
        start += 1;
    }
    assert(magic@.take(end as int) =~= magic@.subrange(0, end as int));
    assert(trim_zeros(magic@) == magic@.subrange(start as int, end as int)) by {
        if start < end {
            assert(magic@.subrange(start as int, end as int).first() == magic@[start as int]);
        }
    }
    let mut trimmed: Vec<u8> = Vec::new();
    let mut i: usize = start;
    while i < end
        invariant
            start <= i <= end <= 8,
            trimmed@ == magic@.subrange(start as int, i as int),
        decreases end - i,
    {
        trimmed.push(magic[i]);
        assert(trimmed@ =~= magic@.subrange(start as int, i as int + 1));
        i += 1;
    }
    assert(trimmed@ == trim_zeros(magic@));
    match utf8_to_string(trimmed) {
        Some(s) => Ok(s),
        None => Err(SafError::InvalidMagic),
    }
}

/// Compares two text slices.
pub fn str_eq(a: &str, b: &str) -> (r: bool)
    ensures
        r == (a@ == b@),
{
    let av = a.as_bytes();
    let bv = b.as_bytes();
    let eq = bytes_eq(av, bv);
    proof {
        if a.spec_bytes() == b.spec_bytes() {
            vstd::utf8::encode_utf8_decode_utf8(a@);
            vstd::utf8::encode_utf8_decode_utf8(b@);
        }
    }
    eq
}

/// Compares two byte slices.
pub fn bytes_eq(a: &[u8], b: &[u8]) -> (r: bool)
    ensures
        r == (a@ == b@),
{
    if a.len() != b.len() {
        return false;
    }
    let mut i: usize = 0;
    while i < a.len()
        invariant
            i <= a@.len(),
            a@.len() == b@.len(),
            forall|j: int| 0 <= j < i ==> a@[j] == b@[j],
        decreases a@.len() - i,
    {
        if a[i] != b[i] {
            return false;
        }
        i += 1;
    }
    proof {
        assert(a@ =~= b@);
    }
    true
}

} // verus!
