use vstd::bytes::{spec_u32_to_le_bytes, u32_to_le_bytes};
use vstd::prelude::*;

use crate::error::SafError;
use crate::saf::constants::spec_saf_magic;
use crate::saf::read::spec_inflate;
use crate::saf::write::{
    bgzf_compress, lemma_word_bytes_take_succ, spec_deflate, word_bytes, write_saf_magic,
    BinaryWrite,
};

verus! {

/// Encodes the position stream of one dataset: the magic tag and one
/// little-endian 32-bit position per site are gathered raw, and `finish`
/// deflates them onto the sink.
pub struct PositionWriter {
    pub sink: Vec<u8>,
    pub raw: Vec<u8>,
}

impl PositionWriter {
    pub fn new(sink: Vec<u8>) -> (r: Self)
        ensures
            r.sink@ == sink@,
            r.raw@ == Seq::<u8>::empty(),
    {
        let r = Self { sink, raw: Vec::new() };
        r
    }

    /// Appends the fixed magic tag to the raw stream.
    pub fn write_header(&mut self)
        ensures
            final(self).raw@ == old(self).raw@ + spec_saf_magic(),
            final(self).sink@ == old(self).sink@,
    {
        write_saf_magic(&mut self.raw);
    }

    /// Deflates the gathered raw stream onto the sink and returns the sink;
    /// inflating what was appended recovers the raw stream exactly. It
    /// succeeds exactly when the block compressor accepts the raw stream,
    /// which depends on that stream alone.
    pub fn finish(self) -> (r: Result<Vec<u8>, SafError>)
        ensures
            r is Ok <==> spec_deflate(self.raw@) is Some,
            r matches Ok(out) ==> (Some(out@.skip(self.sink@.len() as int)) == spec_deflate(
                self.raw@,
            ) && out@.take(self.sink@.len() as int) == self.sink@ && spec_inflate(
                out@.skip(self.sink@.len() as int),
            ) == Some(self.raw@)),
            r matches Err(e) ==> e == SafError::BadCompression,
    {
        let mut sink = self.sink;
        let mut compressed = match bgzf_compress(self.raw.as_slice()) {
            Ok(v) => v,
            Err(e) => {
                return Err(e);
            },
        };
        sink.append(&mut compressed);
        assert(sink@.skip(self.sink@.len() as int) =~= spec_deflate(self.raw@)->Some_0);
        assert(sink@.take(self.sink@.len() as int) =~= self.sink@);
        Ok(sink)
    }
}

impl BinaryWrite for PositionWriter {
    type Value = u32;

    open spec fn unit_bytes(value: u32) -> Seq<u8> {
        spec_u32_to_le_bytes(value)
    }

    open spec fn units_bytes(values: Seq<u32>) -> Seq<u8> {
        word_bytes(values)
    }

    open spec fn raw(&self) -> Seq<u8> {
        self.raw@
    }

    open spec fn sink(&self) -> Seq<u8> {
        self.sink@
    }

    fn write(&mut self, value: u32) {
        let mut bytes = u32_to_le_bytes(value);
        self.raw.append(&mut bytes);
    }

    fn write_all(&mut self, values: &[u32]) -> (count: usize) {
        let mut i: usize = 0;
        assert(values@.take(0) =~= Seq::<u32>::empty());
        assert(old(self).raw@ + Seq::<u8>::empty() =~= old(self).raw@);
        while i < values.len()
            invariant
                i <= values@.len(),
                self.sink == old(self).sink,
                self.raw@ =~= old(self).raw@ + word_bytes(values@.take(i as int)),
            decreases values@.len() - i,
        {
            proof {
                lemma_word_bytes_take_succ(values@, i as int);
            }
            let mut bytes = u32_to_le_bytes(values[i]);
            self.raw.append(&mut bytes);
            i += 1;
        }
        assert(values@.take(values@.len() as int) =~= values@);
        i
    }
}

} // verus!
