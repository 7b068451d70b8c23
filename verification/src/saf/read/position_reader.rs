use vstd::bytes::{spec_u32_from_le_bytes, u32_from_le_bytes};
use vstd::pervasive::unreached;
use vstd::prelude::*;
use vstd::slice::slice_subrange;

use crate::error::SafError;
use crate::saf::constants::{lemma_saf_magic_text, spec_saf_magic};
use crate::saf::read::{
    inflate, le_words, lemma_le_words_skip, read_saf_magic, spec_inflate, word_aligned, BinaryRead,
};
use crate::utils::parse_magic;

verus! {

/// Decodes the position stream of one dataset: after inflation, an 8-byte
/// magic tag followed by one little-endian 32-bit position per site.
pub struct PositionReader {
    pub data: Vec<u8>,
    pub pos: usize,
}

impl PositionReader {
    /// The inflated bytes not yet consumed.
    pub open spec fn rem(&self) -> Seq<u8> {
        if self.pos <= self.data@.len() {
            self.data@.skip(self.pos as int)
        } else {
            Seq::empty()
        }
    }

    pub open spec fn wf(&self) -> bool {
        self.pos <= self.data@.len()
    }

    /// Inflates a compressed position stream and places a cursor at its
    /// start; succeeds exactly when the compressed stream decodes.
    pub fn new(src: &[u8]) -> (r: Result<Self, SafError>)
        ensures
            r matches Ok(rd) ==> rd.wf() && Some(rd.rem()) == spec_inflate(src@),
            r is Err ==> r == Err::<Self, SafError>(SafError::BadCompression) && spec_inflate(src@)
                is None,
    {
        match inflate(src) {
            Ok(data) => {
                let rd = Self { data, pos: 0 };
                assert(rd.rem() =~= rd.data@);
                Ok(rd)
            },
            Err(e) => Err(e),
        }
    }

    /// Reads and checks the magic tag, returning its text.
    pub fn read_header(&mut self) -> (r: Result<String, SafError>)
        requires
            old(self).wf(),
        ensures
            final(self).wf(),
            r is Ok <==> old(self).rem().len() >= 8 && old(self).rem().take(8)
                == spec_saf_magic(),
            r matches Ok(s) ==> s@ == "safv3"@ && final(self).rem() == old(self).rem().skip(8),
            r is Err ==> *final(self) == *old(self),
            old(self).rem().len() < 8 ==> r == Err::<String, SafError>(SafError::Truncated),
            old(self).rem().len() >= 8 && old(self).rem().take(8) != spec_saf_magic() ==> r
                == Err::<String, SafError>(SafError::InvalidMagic),
    {
        let rem_slice = slice_subrange(self.data.as_slice(), self.pos, self.data.len());
        assert(rem_slice@ == self.rem());
        match read_saf_magic(rem_slice) {
            Ok(m) => {
                self.pos = self.pos + 8;
                assert(self.rem() =~= old(self).rem().skip(8));
                proof {
                    lemma_saf_magic_text();
                }
                match parse_magic(&m) {
                    Ok(s) => Ok(s),
                    Err(_) => unreached(),
                }
            },
            Err(e) => Err(e),
        }
    }
}

impl BinaryRead for PositionReader {
    type Value = u32;

    open spec fn inv(&self) -> bool {
        self.wf()
    }

    open spec fn units(&self) -> Seq<u32> {
        le_words(self.rem())
    }

    open spec fn clean(&self) -> bool {
        word_aligned(self.rem())
    }

    fn read(&mut self) -> (r: Result<Option<u32>, SafError>) {
        let n = self.data.len();
        if n - self.pos >= 4 {
            let w_slice = slice_subrange(self.data.as_slice(), self.pos, self.pos + 4);
            assert(w_slice@ =~= old(self).rem().subrange(0, 4));
            let w = u32_from_le_bytes(w_slice);
            proof {
                assert(old(self).rem().len() / 4 >= 1);
                assert(le_words(old(self).rem())[0] == spec_u32_from_le_bytes(
                    old(self).rem().subrange(0, 4),
                ));
            }
            self.pos = self.pos + 4;
            proof {
                assert(self.rem() =~= old(self).rem().skip(4));
                lemma_le_words_skip(old(self).rem(), 1);
                assert(le_words(old(self).rem()).skip(1) =~= le_words(
                    old(self).rem(),
                ).drop_first());
            }
            Ok(Some(w))
        } else if n == self.pos {
            assert(old(self).rem().len() == 0);
            Ok(None)
        } else {
            assert(old(self).rem().len() < 4 && old(self).rem().len() > 0);
            Err(SafError::Truncated)
        }
    }

    #[verifier::loop_isolation(false)]
    fn read_exact(&mut self, n: usize) -> (r: Result<Option<Vec<u32>>, SafError>) {
        if n == 0 {
            return Ok(Some(Vec::new()));
        }
        let len = self.data.len();
        let avail = len - self.pos;
        let avail_words = avail / 4;
        if avail_words >= n {
            let ghost rem0 = old(self).rem();
            let ghost pos0 = self.pos as int;
            assert(4 * n <= avail) by (nonlinear_arith)
                requires
                    avail / 4 >= n,
                    avail >= 0,
                    n >= 0,
            ;
            let mut out: Vec<u32> = Vec::new();
            let mut i: usize = 0;
            while i < n
                invariant
                    i <= n,
                    self.pos as int == pos0 + 4 * i,
                    self.data == old(self).data,
                    out@ =~= le_words(rem0).take(i as int),
                decreases n - i,
            {
                let w_slice = slice_subrange(self.data.as_slice(), self.pos, self.pos + 4);
                proof {
                    assert(w_slice@ =~= rem0.subrange(4 * i as int, 4 * i as int + 4));
                    assert(4 * (i as int) + 4 <= 4 * n as int);
                    assert(i < le_words(rem0).len());
                    assert(le_words(rem0)[i as int] == spec_u32_from_le_bytes(
                        rem0.subrange(4 * i as int, 4 * i as int + 4),
                    ));
                }
                let w = u32_from_le_bytes(w_slice);
                out.push(w);
                assert(out@ =~= le_words(rem0).take(i as int + 1));
                self.pos = self.pos + 4;
                i += 1;
            }
            proof {
                lemma_le_words_skip(rem0, n as int);
                assert(self.rem() =~= rem0.skip(4 * n as int));
                assert((rem0.len() - 4 * n as int) % 4 == rem0.len() % 4) by (nonlinear_arith)
                    requires
                        0 <= 4 * n as int <= rem0.len(),
                ;
            }
            Ok(Some(out))
        } else if avail == 0 {
            assert(old(self).rem().len() == 0);
            Ok(None)
        } else {
            proof {
                assert(avail == old(self).rem().len());
                assert(le_words(old(self).rem()).len() < n);
                if le_words(old(self).rem()).len() == 0 {
                    assert(old(self).rem().len() / 4 == 0);
                    assert(old(self).rem().len() % 4 != 0);
                }
            }
            Err(SafError::Truncated)
        }
    }
}

} // verus!
