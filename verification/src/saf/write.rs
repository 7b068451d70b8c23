use vstd::bytes::{lemma_auto_spec_u32_to_from_le_bytes, spec_u32_to_le_bytes};
use vstd::prelude::*;

use crate::error::SafError;
use crate::saf::constants::spec_saf_magic;
use crate::saf::read::{le_words, spec_inflate, word_aligned};

pub mod position_writer;
pub mod value_writer;

pub use self::position_writer::PositionWriter;
pub use self::value_writer::ValueWriter;

verus! {

/// The little-endian byte encoding of a word sequence, one word after
/// another.
pub open spec fn word_bytes(words: Seq<u32>) -> Seq<u8>
    decreases words.len(),
{
    if words.len() == 0 {
        Seq::empty()
    } else {
        spec_u32_to_le_bytes(words.first()) + word_bytes(words.drop_first())
    }
}

pub proof fn lemma_word_bytes_len(words: Seq<u32>)
    ensures
        word_bytes(words).len() == 4 * words.len(),
    decreases words.len(),
{
    if words.len() > 0 {
        lemma_auto_spec_u32_to_from_le_bytes();
        lemma_word_bytes_len(words.drop_first());
    }
}

pub proof fn lemma_word_bytes_index(words: Seq<u32>, i: int)
    requires
        0 <= i < words.len(),
    ensures
        word_bytes(words).subrange(4 * i, 4 * i + 4) == spec_u32_to_le_bytes(words[i]),
    decreases i,
{
    lemma_auto_spec_u32_to_from_le_bytes();
    lemma_word_bytes_len(words);
    let rest = words.drop_first();
    lemma_word_bytes_len(rest);
    if i == 0 {
        assert(word_bytes(words).subrange(0, 4) =~= spec_u32_to_le_bytes(words.first()));
    } else {
        lemma_word_bytes_index(rest, i - 1);
        assert(word_bytes(words).subrange(4 * i, 4 * i + 4) =~= word_bytes(rest).subrange(
            4 * (i - 1),
            4 * (i - 1) + 4,
        ));
        assert(rest[i - 1] == words[i]);
    }
}

/// The word codec round trip: any word sequence, encoded to bytes, decodes
/// back to exactly itself, with no bytes left over.
pub proof fn lemma_words_round_trip(words: Seq<u32>)
    ensures
        word_aligned(word_bytes(words)),
        le_words(word_bytes(words)) == words,
{
    lemma_auto_spec_u32_to_from_le_bytes();
    lemma_word_bytes_len(words);
    let b = word_bytes(words);
    assert(b.len() / 4 == words.len()) by (nonlinear_arith)
        requires
            b.len() == 4 * words.len(),
    ;
    assert forall|i: int| 0 <= i < words.len() implies le_words(b)[i] == words[i] by {
        lemma_word_bytes_index(words, i);
        assert(spec_u32_to_le_bytes(words[i]).len() == 4);
        assert(le_words(b)[i] == vstd::bytes::spec_u32_from_le_bytes(b.subrange(4 * i, 4 * i + 4)));
    }
    assert(le_words(b) =~= words);
}

/// The word stream of a whole encoded position or value file body: the
/// magic tag, then the words.
pub proof fn lemma_stream_round_trip(words: Seq<u32>)
    ensures
        (spec_saf_magic() + word_bytes(words)).take(8) == spec_saf_magic(),
        le_words((spec_saf_magic() + word_bytes(words)).skip(8)) == words,
        word_aligned((spec_saf_magic() + word_bytes(words)).skip(8)),
{
    let stream = spec_saf_magic() + word_bytes(words);
    assert(stream.take(8) =~= spec_saf_magic());
    assert(stream.skip(8) =~= word_bytes(words));
    lemma_words_round_trip(words);
}

/// The words of a value stream, taken a fixed `k` at a time: one chunk per
/// site when `k` is the allele-category count.
pub open spec fn chunked(words: Seq<u32>, k: int) -> Seq<Seq<u32>>
    recommends
        k > 0,
{
    Seq::new((words.len() / k as nat), |i: int| words.subrange(k * i, k * i + k))
}

pub proof fn lemma_flatten_uniform_len(chunks: Seq<Seq<u32>>, k: int)
    requires
        k > 0,
        forall|i: int| 0 <= i < chunks.len() ==> (#[trigger] chunks[i]).len() == k,
    ensures
        chunks.flatten().len() == k * chunks.len(),
    decreases chunks.len(),
{
    if chunks.len() == 0 {
    } else {
        lemma_flatten_uniform_len(chunks.drop_first(), k);
        assert(chunks.flatten() == chunks.first() + chunks.drop_first().flatten());
        assert(k + k * (chunks.len() - 1) == k * chunks.len()) by (nonlinear_arith);
    }
}

pub proof fn lemma_flatten_uniform_index(chunks: Seq<Seq<u32>>, k: int, i: int)
    requires
        k > 0,
        forall|j: int| 0 <= j < chunks.len() ==> (#[trigger] chunks[j]).len() == k,
        0 <= i < chunks.len(),
    ensures
        chunks.flatten().subrange(k * i, k * i + k) == chunks[i],
    decreases i,
{
    lemma_flatten_uniform_len(chunks, k);
    let rest = chunks.drop_first();
    assert(chunks.flatten() == chunks.first() + rest.flatten());
    assert(k * i + k <= k * chunks.len() && 0 <= k * i) by (nonlinear_arith)
        requires
            k > 0,
            0 <= i < chunks.len(),
    ;
    if i == 0 {
        assert(k * i == 0) by (nonlinear_arith)
            requires
                i == 0,
        ;
        assert(chunks.flatten().subrange(0, k) =~= chunks.first());
        assert(chunks.flatten().subrange(k * i, k * i + k) == chunks[i]);
    } else {
        lemma_flatten_uniform_len(rest, k);
        lemma_flatten_uniform_index(rest, k, i - 1);
        assert(k * (i - 1) == k * i - k && k <= k * i) by (nonlinear_arith)
            requires
                k > 0,
                1 <= i,
        ;
        assert(chunks.first().len() == k);
        assert(chunks.flatten().subrange(k * i, k * i + k) =~= rest.flatten().subrange(
            k * (i - 1),
            k * (i - 1) + k,
        ));
        assert(rest[i - 1] == chunks[i]);
        assert(chunks.flatten().subrange(k * i, k * i + k) == chunks[i]);
    }
}

/// The chunk round trip: value chunks of one size, written one after
/// another, read back as chunks of that size, are exactly the chunks that
/// were written.
pub proof fn lemma_chunks_round_trip(chunks: Seq<Seq<u32>>, k: int)
    requires
        k > 0,
        forall|i: int| 0 <= i < chunks.len() ==> (#[trigger] chunks[i]).len() == k,
    ensures
        chunked(chunks.flatten(), k) == chunks,
{
    lemma_flatten_uniform_len(chunks, k);
    assert(chunks.flatten().len() / k as nat == chunks.len()) by (nonlinear_arith)
        requires
            k > 0,
            chunks.flatten().len() == k * chunks.len(),
    ;
    assert forall|i: int| 0 <= i < chunks.len() implies chunked(chunks.flatten(), k)[i]
        == chunks[i] by {
        lemma_flatten_uniform_index(chunks, k, i);
    }
    assert(chunked(chunks.flatten(), k) =~= chunks);
}

/// Appends the fixed magic tag to a raw stream being built.
pub fn write_saf_magic(out: &mut Vec<u8>)
    ensures
        final(out)@ == old(out)@ + spec_saf_magic(),
{
    let magic = crate::saf::constants::saf_magic();
    let mut i: usize = 0;
    while i < 8
        invariant
            i <= 8,
            magic@ == spec_saf_magic(),
            out@ =~= old(out)@ + spec_saf_magic().take(i as int),
        decreases 8 - i,
    {
        out.push(magic[i]);
        assert(out@ =~= old(out)@ + spec_saf_magic().take(i as int + 1));
        i += 1;
    }
    assert(out@ =~= old(out)@ + spec_saf_magic());
}

/// The bytes that deflating a raw stream with the block compressor yields,
/// or nothing when the compressor reports a failure instead.
pub uninterp spec fn spec_deflate(bytes: Seq<u8>) -> Option<Seq<u8>>;

/// Relies on noodles-bgzf's `io::Writer`: it emits a BGZF stream, which is a
/// sequence of complete gzip members (one per block, plus an empty
/// terminator block) whose inflated concatenation is exactly the bytes
/// written; the outcome, success included, depends on the input bytes alone.
/// flate2's `MultiGzDecoder` inflates every member of such a stream in turn
/// (`spec_inflate`), recovering those bytes.
#[verifier::external_body]
pub(crate) fn bgzf_compress(raw: &[u8]) -> (r: Result<Vec<u8>, SafError>)
    ensures
        r matches Ok(v) ==> (spec_deflate(raw@) == Some(v@) && spec_inflate(v@) == Some(raw@)),
        r is Ok <== spec_deflate(raw@) is Some,
        r matches Err(e) ==> e == SafError::BadCompression,
{
    let mut writer = noodles_bgzf::io::Writer::new(Vec::new());
    match std::io::Write::write_all(&mut writer, raw) {
        Ok(()) => {},
        Err(_) => return Err(SafError::BadCompression),
    }
    match writer.finish() {
        Ok(v) => Ok(v),
        Err(_) => Err(SafError::BadCompression),
    }
}

/// A sink of fixed-width binary units encoded to a byte stream.
pub trait BinaryWrite: Sized {
    type Value: Copy;

    /// The byte encoding of one unit.
    spec fn unit_bytes(value: Self::Value) -> Seq<u8>;

    /// The byte encoding of a unit sequence, one unit after another.
    spec fn units_bytes(values: Seq<Self::Value>) -> Seq<u8>;

    /// The raw (uncompressed) bytes written so far.
    spec fn raw(&self) -> Seq<u8>;

    /// The sink the finished stream will be appended to.
    spec fn sink(&self) -> Seq<u8>;

    /// Encodes one unit onto the stream; the sink is untouched.
    fn write(&mut self, value: Self::Value)
        ensures
            final(self).raw() == old(self).raw() + Self::unit_bytes(value),
            final(self).sink() == old(self).sink(),
    ;

    /// Encodes each unit of a slice in turn, returning how many were
    /// written; the sink is untouched.
    fn write_all(&mut self, values: &[Self::Value]) -> (count: usize)
        ensures
            count == values@.len(),
            final(self).raw() == old(self).raw() + Self::units_bytes(values@),
            final(self).sink() == old(self).sink(),
    ;
}

/// One more word on the front of a prefix being encoded.
pub proof fn lemma_word_bytes_take_succ(words: Seq<u32>, i: int)
    requires
        0 <= i < words.len(),
    ensures
        word_bytes(words.take(i + 1)) == word_bytes(words.take(i)) + spec_u32_to_le_bytes(
            words[i],
        ),
    decreases i,
{
    if i == 0 {
        assert(words.take(1).drop_first() =~= Seq::<u32>::empty());
        assert(words.take(0) =~= Seq::<u32>::empty());
        assert(words.take(1).first() == words[0]);
        assert(spec_u32_to_le_bytes(words[0]) + Seq::<u8>::empty() =~= spec_u32_to_le_bytes(
            words[0],
        ));
        assert(Seq::<u8>::empty() + spec_u32_to_le_bytes(words[0]) =~= spec_u32_to_le_bytes(
            words[0],
        ));
    } else {
        let rest = words.drop_first();
        assert(words.take(i + 1).drop_first() =~= rest.take(i));
        assert(words.take(i).drop_first() =~= rest.take(i - 1));
        assert(words.take(i + 1).first() == words.first());
        assert(words.take(i).first() == words.first());
        lemma_word_bytes_take_succ(rest, i - 1);
        assert(rest[i - 1] == words[i]);
        assert(spec_u32_to_le_bytes(words.first()) + (word_bytes(rest.take(i - 1))
            + spec_u32_to_le_bytes(words[i])) =~= (spec_u32_to_le_bytes(words.first())
            + word_bytes(rest.take(i - 1))) + spec_u32_to_le_bytes(words[i]));
    }
}

} // verus!
