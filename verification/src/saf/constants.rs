use vstd::prelude::*;
use vstd::utf8::{decode_utf8, valid_utf8};

use crate::utils::{trim_trailing_zeros, trim_zeros};

verus! {

/// The fixed 8-byte tag that opens every stream of a SAF dataset:
/// the ASCII text "safv3" padded with zero bytes.
pub open spec fn spec_saf_magic() -> Seq<u8> {
    seq![0x73u8, 0x61u8, 0x66u8, 0x76u8, 0x33u8, 0x00u8, 0x00u8, 0x00u8]
}

/// Returns the fixed 8-byte magic tag.
pub fn saf_magic() -> (r: [u8; 8])
    ensures
        r@ == spec_saf_magic(),
{
    let r = [0x73u8, 0x61u8, 0x66u8, 0x76u8, 0x33u8, 0x00u8, 0x00u8, 0x00u8];
    assert(r@ =~= spec_saf_magic());
    r
}

/// An ASCII byte at the front of a stream is one whole scalar, and decodes
/// to itself.
proof fn lemma_ascii_head(bytes: Seq<u8>)
    requires
        bytes.len() > 0,
        bytes[0] < 0x80,
    ensures
        vstd::utf8::valid_first_scalar(bytes),
        vstd::utf8::length_of_first_scalar(bytes) == 1,
        vstd::utf8::decode_first_scalar(bytes) == bytes[0] as u32,
        vstd::utf8::pop_first_scalar(bytes) == bytes.subrange(1, bytes.len() as int),
{
    let b = bytes[0];
    assert(vstd::utf8::is_leading_byte_width_1(b));
    assert(b & 0x7f == b) by (bit_vector)
        requires
            b < 0x80,
    ;
    assert(vstd::utf8::decode_first_codepoint(bytes) == b as u32);
}

/// One step of decoding an ASCII byte stream: the head byte becomes one
/// character and the tail decodes on its own.
proof fn lemma_ascii_decode_step(bytes: Seq<u8>)
    requires
        bytes.len() > 0,
        bytes[0] < 0x80,
        valid_utf8(bytes.subrange(1, bytes.len() as int)),
    ensures
        valid_utf8(bytes),
        decode_utf8(bytes) == seq![bytes[0] as u32 as char] + decode_utf8(
            bytes.subrange(1, bytes.len() as int),
        ),
{
    lemma_ascii_head(bytes);
}

/// The magic tag reads as the text "safv3" once its zero padding is
/// stripped.
pub proof fn lemma_saf_magic_text()
    ensures
        trim_zeros(spec_saf_magic()) == seq![0x73u8, 0x61u8, 0x66u8, 0x76u8, 0x33u8],
        valid_utf8(trim_zeros(spec_saf_magic())),
        decode_utf8(trim_zeros(spec_saf_magic())) == "safv3"@,
{
    let m = spec_saf_magic();
    let s5 = seq![0x73u8, 0x61u8, 0x66u8, 0x76u8, 0x33u8];
    let s6 = seq![0x73u8, 0x61u8, 0x66u8, 0x76u8, 0x33u8, 0x00u8];
    let s7 = seq![0x73u8, 0x61u8, 0x66u8, 0x76u8, 0x33u8, 0x00u8, 0x00u8];
    assert(m.last() == 0 && m.drop_last() =~= s7);
    assert(s7.last() == 0 && s7.drop_last() =~= s6);
    assert(s6.last() == 0 && s6.drop_last() =~= s5);
    assert(s5.last() == 0x33);
    assert(trim_trailing_zeros(m) == trim_trailing_zeros(s7));
    assert(trim_trailing_zeros(s7) == trim_trailing_zeros(s6));
    assert(trim_trailing_zeros(s6) == trim_trailing_zeros(s5));
    assert(trim_trailing_zeros(s5) == s5);
    assert(s5.first() == 0x73);
    assert(trim_zeros(m) == s5);
    let t1 = s5.subrange(4, 5);
    let t2 = s5.subrange(3, 5);
    let t3 = s5.subrange(2, 5);
    let t4 = s5.subrange(1, 5);
    assert(t1[0] == 0x33 && t2[0] == 0x76 && t3[0] == 0x66 && t4[0] == 0x61);
    assert(t1.subrange(1, 1) =~= Seq::<u8>::empty());
    assert(valid_utf8(Seq::<u8>::empty()));
    assert(decode_utf8(Seq::<u8>::empty()) == Seq::<char>::empty());
    lemma_ascii_decode_step(t1);
    assert(t2.subrange(1, 2) =~= t1);
    lemma_ascii_decode_step(t2);
    assert(t3.subrange(1, 3) =~= t2);
    lemma_ascii_decode_step(t3);
    assert(t4.subrange(1, 4) =~= t3);
    lemma_ascii_decode_step(t4);
    assert(s5.subrange(1, 5) =~= t4);
    lemma_ascii_decode_step(s5);
    assert(decode_utf8(t1) =~= seq![0x33u32 as char]);
    assert(decode_utf8(t2) =~= seq![0x76u32 as char, 0x33u32 as char]);
    assert(decode_utf8(t3) =~= seq![0x66u32 as char, 0x76u32 as char, 0x33u32 as char]);
    assert(decode_utf8(t4) =~= seq![
        0x61u32 as char,
        0x66u32 as char,
        0x76u32 as char,
        0x33u32 as char,
    ]);
    assert(decode_utf8(s5) =~= seq![
        0x73u32 as char,
        0x61u32 as char,
        0x66u32 as char,
        0x76u32 as char,
        0x33u32 as char,
    ]);
    reveal_strlit("safv3");
    assert("safv3"@ =~= seq!['s', 'a', 'f', 'v', '3']);
    assert('s' as u32 == 0x73 && 'a' as u32 == 0x61 && 'f' as u32 == 0x66 && 'v' as u32 == 0x76
        && '3' as u32 == 0x33);
    vstd::utf8::char_u32_cast('s', 0x73);
    vstd::utf8::char_u32_cast('a', 0x61);
    vstd::utf8::char_u32_cast('f', 0x66);
    vstd::utf8::char_u32_cast('v', 0x76);
    vstd::utf8::char_u32_cast('3', 0x33);
    assert(decode_utf8(s5) =~= "safv3"@);
}

} // verus!
