use vstd::bytes::spec_u32_from_le_bytes;
use vstd::prelude::*;

use crate::error::SafError;
use crate::saf::constants::{saf_magic, spec_saf_magic};
use crate::utils::read_magic;

pub mod iter;
pub mod merged_reader;
pub mod position_reader;
pub mod reader;
pub mod value_reader;

pub use self::merged_reader::MergedReader;
pub use self::position_reader::PositionReader;
pub use self::reader::Reader;
pub use self::value_reader::ValueReader;

verus! {

/// The complete little-endian 32-bit words at the front of `bytes`; up to
/// three trailing bytes are not part of any word.
pub open spec fn le_words(bytes: Seq<u8>) -> Seq<u32> {
    Seq::new((bytes.len() / 4) as nat, |i: int| spec_u32_from_le_bytes(
        bytes.subrange(4 * i, 4 * i + 4),
    ))
}

/// True when `bytes` splits into whole words, with nothing left over.
pub open spec fn word_aligned(bytes: Seq<u8>) -> bool {
    bytes.len() % 4 == 0
}

/// What remains of a word stream after its leading words are consumed.
pub proof fn lemma_le_words_skip(bytes: Seq<u8>, k: int)
    requires
        0 <= 4 * k <= bytes.len(),
    ensures
        le_words(bytes.skip(4 * k)) =~= le_words(bytes).skip(k),
{
    let rest = bytes.skip(4 * k);
    assert(rest.len() == bytes.len() - 4 * k);
    assert forall|i: int| 0 <= i < rest.len() / 4 implies le_words(rest)[i] == le_words(
        bytes,
    ).skip(k)[i] by {
        assert(rest.subrange(4 * i, 4 * i + 4) =~= bytes.subrange(
            4 * (i + k),
            4 * (i + k) + 4,
        ));
    }
    assert(rest.len() / 4 == bytes.len() / 4 - k) by (nonlinear_arith)
        requires rest.len() == bytes.len() - 4 * k && 0 <= 4 * k <= bytes.len();
}

/// Reads the magic tag from the front of a raw stream.
pub fn read_saf_magic(bytes: &[u8]) -> (r: Result<[u8; 8], SafError>)
    ensures
        r is Ok <==> bytes@.len() >= 8 && bytes@.take(8) == spec_saf_magic(),
        r matches Ok(m) ==> m@ == spec_saf_magic(),
        bytes@.len() < 8 ==> r == Err::<[u8; 8], SafError>(SafError::Truncated),
        bytes@.len() >= 8 && bytes@.take(8) != spec_saf_magic() ==> r == Err::<[u8; 8], SafError>(
            SafError::InvalidMagic,
        ),
{
    let magic = saf_magic();
    read_magic(bytes, &magic)
}

/// Relies on flate2's `bufread::MultiGzDecoder`: reading it to the end
/// inflates every gzip member of `src` in turn and concatenates the results;
/// the outcome is a function of the input bytes alone, failing exactly on
/// input that is not a well-formed gzip stream.
#[verifier::external_body]
pub(crate) fn inflate(src: &[u8]) -> (r: Result<Vec<u8>, SafError>)
    ensures
        r matches Ok(v) ==> spec_inflate(src@) == Some(v@),
        r is Ok <== spec_inflate(src@) is Some,
        r matches Err(e) ==> e == SafError::BadCompression,
{
    let mut decoder = flate2::bufread::MultiGzDecoder::new(src);
    let mut out = Vec::new();
    match std::io::Read::read_to_end(&mut decoder, &mut out) {
        Ok(_) => Ok(out),
        Err(_) => Err(SafError::BadCompression),
    }
}

/// The bytes that inflating a compressed stream yields, or nothing when the
/// stream does not decode.
pub uninterp spec fn spec_inflate(bytes: Seq<u8>) -> Option<Seq<u8>>;

/// A source of fixed-width binary units decoded from a byte stream.
pub trait BinaryRead: Sized {
    type Value;

    /// Well-formedness of the reader's state.
    spec fn inv(&self) -> bool;

    /// The complete units not yet consumed.
    spec fn units(&self) -> Seq<Self::Value>;

    /// True when no partial unit trails the complete ones.
    spec fn clean(&self) -> bool;

    /// Decodes the next unit; `Ok(None)` is a clean end of data, while an
    /// end of data inside a unit is an error.
    fn read(&mut self) -> (r: Result<Option<Self::Value>, SafError>)
        requires
            old(self).inv(),
        ensures
            final(self).inv(),
            old(self).units().len() > 0 ==> (r matches Ok(w)
                && w matches Some(v)
                && v == old(self).units()[0]
                && final(self).units() == old(self).units().drop_first()
                && final(self).clean() == old(self).clean()),
            old(self).units().len() == 0 && old(self).clean() ==> (r matches Ok(w)
                && w is None
                && *final(self) == *old(self)),
            old(self).units().len() == 0 && !old(self).clean() ==> (r matches Err(e)
                && e == SafError::Truncated
                && *final(self) == *old(self)),
    ;

    /// Decodes exactly `n` units; `Ok(None)` is a clean end of data before
    /// the first unit, while an end of data anywhere inside the request is
    /// an error.
    fn read_exact(&mut self, n: usize) -> (r: Result<Option<Vec<Self::Value>>, SafError>)
        requires
            old(self).inv(),
        ensures
            final(self).inv(),
            n == 0 ==> (r matches Ok(w)
                && w matches Some(v)
                && v@ =~= Seq::<Self::Value>::empty()
                && *final(self) == *old(self)),
            old(self).units().len() >= n && n > 0 ==> (r matches Ok(w)
                && w matches Some(v)
                && v@ == old(self).units().take(n as int)
                && final(self).units() == old(self).units().skip(n as int)
                && final(self).clean() == old(self).clean()),
            old(self).units().len() == 0 && old(self).clean() && n > 0 ==> (r matches Ok(w)
                && w is None
                && *final(self) == *old(self)),
            old(self).units().len() == 0 && !old(self).clean() && n > 0 ==> (r matches Err(e)
                && e == SafError::Truncated
                && *final(self) == *old(self)),
            0 < old(self).units().len() < n ==> (r matches Err(e) && e == SafError::Truncated),
    ;

    /// Consumes the reader into a cursor that yields one unit at a time.
    fn into_iter(self) -> (r: iter::BinaryIterMut<Self>)
        ensures
            r.inner == self,
    {
        iter::BinaryIterMut::new(self)
    }

    /// Consumes the reader into a cursor that yields `chunk_size` units at a
    /// time.
    fn into_chunks(self, chunk_size: usize) -> (r: iter::BinaryChunksMut<Self>)
        ensures
            r.inner == self,
            r.chunk_size == chunk_size,
    {
        iter::BinaryChunksMut::new(self, chunk_size)
    }
}

} // verus!
