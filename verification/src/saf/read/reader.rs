use vstd::prelude::*;

use crate::error::SafError;
use crate::saf::constants::spec_saf_magic;
use crate::saf::index::{total_sites, Entry, Index};
use crate::saf::read::iter::{BinaryChunksMut, BinaryIterMut, Sites};
use crate::saf::read::{BinaryRead, PositionReader, ValueReader};

verus! {

/// The sum of the per-contig site counts, clamped to the platform limit:
/// the advisory length handed to the sequencer.
pub open spec fn clamped_total(entries: Seq<Entry>) -> int {
    if total_sites(entries) <= usize::MAX {
        total_sites(entries)
    } else {
        usize::MAX as int
    }
}

/// One dataset open for reading: its decoded index and the cursors over its
/// two inflated streams.
pub struct Reader {
    pub index: Index,
    pub position_reader: PositionReader,
    pub value_reader: ValueReader,
}

impl Reader {
    /// Well-formedness of the reader's state.
    pub open spec fn wf(&self) -> bool {
        &&& self.index.n_alleles >= 1
        &&& self.position_reader.wf()
        &&& self.value_reader.wf()
    }

    /// Returns the dataset's index.
    pub fn index(&self) -> (r: &Index)
        ensures
            r == &self.index,
    {
        &self.index
    }

    /// Returns the dataset's index for modification.
    pub fn index_mut(&mut self) -> (r: &mut Index)
        ensures
            *r == old(self).index,
            final(self).index == *final(r),
            final(self).position_reader == old(self).position_reader,
            final(self).value_reader == old(self).value_reader,
    {
        &mut self.index
    }

    pub fn new(index: Index, position_reader: PositionReader, value_reader: ValueReader) -> (r:
        Self)
        ensures
            r.index == index,
            r.position_reader == position_reader,
            r.value_reader == value_reader,
    {
        Self { index, position_reader, value_reader }
    }

    /// Returns the position stream cursor for direct reading.
    pub fn position_reader_mut(&mut self) -> (r: &mut PositionReader)
        ensures
            *r == old(self).position_reader,
            final(self).position_reader == *final(r),
            final(self).index == old(self).index,
            final(self).value_reader == old(self).value_reader,
    {
        &mut self.position_reader
    }

    /// Returns the value stream cursor for direct reading.
    pub fn value_reader_mut(&mut self) -> (r: &mut ValueReader)
        ensures
            *r == old(self).value_reader,
            final(self).value_reader == *final(r),
            final(self).index == old(self).index,
            final(self).position_reader == old(self).position_reader,
    {
        &mut self.value_reader
    }

    /// The advisory total site count of the index, clamped to the platform
    /// limit.
    fn n_sites_clamped(&self) -> (r: usize)
        ensures
            r == clamped_total(self.index.entries@),
    {
        let entries = self.index.entries();
        let mut sum: usize = 0;
        let mut i: usize = 0;
        assert(entries@.take(0) =~= Seq::<Entry>::empty());
        while i < entries.len()
            invariant
                i <= entries@.len(),
                sum == clamped_total(entries@.take(i as int)),
                entries@ == self.index.entries@,
            decreases entries@.len() - i,
        {
            proof {
                crate::saf::index::lemma_total_sites_take_succ(entries@, i as int);
                crate::saf::index::lemma_total_sites_nonneg(entries@.take(i as int));
            }
            let n = entries[i].n_sites;
            if usize::MAX - sum < n {
                sum = usize::MAX;
            } else {
                sum = sum + n;
            }
            i += 1;
        }
        assert(entries@.take(entries@.len() as int) =~= entries@);
        sum
    }

    /// Consumes the reader into the sequence of its decoded sites, one value
    /// chunk of the index's allele-category count per site.
    pub fn sites(self) -> (r: Sites)
        requires
            self.wf(),
        ensures
            r.inv(),
            !r.done,
            r.k() == self.index.n_alleles,
            r.rem_names() =~= crate::saf::index::expand_entries(self.index.entries@),
            r.rem_pos() == self.position_reader.units(),
            r.positions.inner.clean() == self.position_reader.clean(),
            r.rem_vals() == self.value_reader.units(),
            r.values.inner.clean() == self.value_reader.clean(),
            r.remaining == clamped_total(self.index.entries@),
    {
        let n_sites = self.n_sites_clamped();
        let n_alleles = self.index.n_alleles();
        let names = self.index.iter_names();
        Sites::new(
            names,
            BinaryIterMut::new(self.position_reader),
            BinaryChunksMut::new(self.value_reader, n_alleles),
            n_sites,
        )
    }

    /// Reads and checks the magic tag of both compressed streams, returning
    /// the shared header text.
    pub fn read_header(&mut self) -> (r: Result<String, SafError>)
        requires
            old(self).wf(),
        ensures
            final(self).wf(),
            final(self).index == old(self).index,
            r is Ok <==> (old(self).position_reader.rem().len() >= 8 && old(
                self,
            ).position_reader.rem().take(8) == spec_saf_magic() && old(
                self,
            ).value_reader.rem().len() >= 8 && old(self).value_reader.rem().take(8)
                == spec_saf_magic()),
            r matches Ok(s) ==> (s@ == "safv3"@ && final(self).position_reader.rem() == old(
                self,
            ).position_reader.rem().skip(8) && final(self).value_reader.rem() == old(
                self,
            ).value_reader.rem().skip(8)),
    {
        let position_header = match self.position_reader.read_header() {
            Ok(s) => s,
            Err(e) => {
                return Err(e);
            },
        };
        let value_header = match self.value_reader.read_header() {
            Ok(s) => s,
            Err(e) => {
                return Err(e);
            },
        };
        if position_header == value_header {
            Ok(position_header)
        } else {
            Err(SafError::MismatchedHeaders)
        }
    }
}

} // verus!
