use vstd::prelude::*;

use crate::error::SafError;
use crate::merge::iter::MergedSites;
use crate::merge::sequence_dict::{index_names, spec_dict};
use crate::saf::constants::spec_saf_magic;
use crate::saf::read::{BinaryRead, Reader};
use crate::utils::str_eq;

verus! {

/// Several datasets open together, to be aligned on their shared sites.
pub struct MergedReader {
    pub readers: Vec<Reader>,
}

impl MergedReader {
    /// Well-formedness of every dataset.
    pub open spec fn wf(&self) -> bool {
        forall|i: int| 0 <= i < self.readers@.len() ==> (#[trigger] self.readers@[i]).wf()
    }

    /// Consumes the readers into the merge cursor over their aligned sites.
    pub fn iter(self) -> (r: MergedSites)
        requires
            self.wf(),
        ensures
            r.inv(),
            !r.done,
            r.dict.names() == spec_dict(
                self.readers@.map_values(|rd: Reader| index_names(rd.index)),
            ),
            r.iters.0@.len() == self.readers@.len(),
            forall|i: int|
                0 <= i < self.readers@.len() ==> {
                    let c = (#[trigger] r.iters.0@[i]).0;
                    &&& c.rem_names() == crate::saf::index::expand_entries(
                        self.readers@[i].index.entries@,
                    )
                    &&& c.rem_pos() == self.readers@[i].position_reader.units()
                    &&& c.positions.inner.clean() == self.readers@[i].position_reader.clean()
                    &&& c.rem_vals() == self.readers@[i].value_reader.units()
                    &&& c.values.inner.clean() == self.readers@[i].value_reader.clean()
                    &&& c.k() == self.readers@[i].index.n_alleles
                    &&& !c.done
                },
    {
        MergedSites::from_safs(self.readers)
    }

    pub fn new(readers: Vec<Reader>) -> (r: Self)
        ensures
            r.readers == readers,
    {
        Self { readers }
    }

    /// Returns the allele-category count of each dataset, in order.
    pub fn n_alleles(&self) -> (r: Vec<usize>)
        ensures
            r@.len() == self.readers@.len(),
            forall|i: int| 0 <= i < r@.len() ==> r@[i] == self.readers@[i].index.n_alleles,
    {
        let mut out: Vec<usize> = Vec::new();
        let mut i: usize = 0;
        while i < self.readers.len()
            invariant
                i <= self.readers@.len(),
                out@.len() == i,
                forall|j: int| 0 <= j < i ==> out@[j] == self.readers@[j].index.n_alleles,
            decreases self.readers@.len() - i,
        {
            out.push(self.readers[i].index.n_alleles());
            i += 1;
        }
        out
    }

    /// Reads and checks the magic tag of every dataset's two compressed
    /// streams, returning the header text they all share.
    #[verifier::loop_isolation(false)]
    pub fn read_headers(&mut self) -> (r: Result<String, SafError>)
        requires
            old(self).wf(),
            old(self).readers@.len() >= 1,
        ensures
            final(self).wf(),
            final(self).readers@.len() == old(self).readers@.len(),
            r is Ok <==> (forall|i: int|
                0 <= i < old(self).readers@.len() ==> {
                    let rd = #[trigger] old(self).readers@[i];
                    &&& rd.position_reader.rem().len() >= 8
                    &&& rd.position_reader.rem().take(8) == spec_saf_magic()
                    &&& rd.value_reader.rem().len() >= 8
                    &&& rd.value_reader.rem().take(8) == spec_saf_magic()
                }),
            r matches Ok(s) ==> s@ == "safv3"@,
            r is Ok ==> (forall|i: int|
                0 <= i < old(self).readers@.len() ==> {
                    let rd0 = #[trigger] old(self).readers@[i];
                    let rd1 = final(self).readers@[i];
                    &&& rd1.index == rd0.index
                    &&& rd1.position_reader.rem() == rd0.position_reader.rem().skip(8)
                    &&& rd1.value_reader.rem() == rd0.value_reader.rem().skip(8)
                }),
    {
        let n = self.readers.len();
        let mut header: String = String::new();
        let mut i: usize = 0;
        while i < n
            invariant
                self.readers@.len() == n,
                i <= n,
                self.wf(),
                forall|j: int| i <= j < n ==> self.readers@[j] == old(self).readers@[j],
                forall|j: int|
                    0 <= j < i ==> {
                        let rd = #[trigger] old(self).readers@[j];
                        &&& rd.position_reader.rem().len() >= 8
                        &&& rd.position_reader.rem().take(8) == spec_saf_magic()
                        &&& rd.value_reader.rem().len() >= 8
                        &&& rd.value_reader.rem().take(8) == spec_saf_magic()
                    },
                forall|j: int|
                    0 <= j < i ==> {
                        let rd0 = #[trigger] old(self).readers@[j];
                        let rd1 = self.readers@[j];
                        &&& rd1.index == rd0.index
                        &&& rd1.position_reader.rem() == rd0.position_reader.rem().skip(8)
                        &&& rd1.value_reader.rem() == rd0.value_reader.rem().skip(8)
                    },
                i > 0 ==> header@ == "safv3"@,
            decreases n - i,
        {
            let ghost readers_before = self.readers@;
            let mut rd = self.readers.remove(i);
            let res = rd.read_header();
            self.readers.insert(i, rd);
            proof {
                assert(self.readers@ =~= readers_before.update(i as int, rd));
            }
            match res {
                Ok(h) => {
                    if i > 0 && !str_eq(h.as_str(), header.as_str()) {
                        return Err(SafError::MismatchedHeaders);
                    }
                    header = h;
                },
                Err(e) => {
                    return Err(e);
                },
            }
            i += 1;
        }
        Ok(header)
    }

    /// Returns the open datasets.
    pub fn readers(&self) -> (r: &Vec<Reader>)
        ensures
            r == &self.readers,
    {
        &self.readers
    }

    /// Returns the open datasets for modification.
    pub fn readers_mut(&mut self) -> (r: &mut Vec<Reader>)
        ensures
            *r == old(self).readers,
            final(self).readers == *final(r),
    {
        &mut self.readers
    }
}

} // verus!
