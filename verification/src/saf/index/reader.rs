use vstd::bytes::{spec_u64_from_le_bytes, u64_from_le_bytes};
use vstd::prelude::*;
use vstd::slice::{slice_subrange, slice_to_vec};
use vstd::utf8::{decode_utf8, valid_utf8};

use crate::error::SafError;
use crate::saf::constants::{saf_magic, spec_saf_magic};
use crate::saf::index::{
    index_fits, index_models, Entry, EntryModel, Index, IndexModel,
};
use crate::utils::{read_magic, utf8_to_string};

verus! {

/// The contig record encoded at the front of `bytes`: a 64-bit name length,
/// the name, then the site count and the two stream offsets, every number
/// little-endian. Meaningful when `entry_head_wf(bytes)` holds.
pub open spec fn spec_entry_at(bytes: Seq<u8>) -> EntryModel {
    let nl = spec_u64_from_le_bytes(bytes.take(8)) as int;
    EntryModel {
        name: decode_utf8(bytes.subrange(8, 8 + nl)),
        n_sites: spec_u64_from_le_bytes(bytes.subrange(8 + nl, 16 + nl)),
        position_offset: spec_u64_from_le_bytes(bytes.subrange(16 + nl, 24 + nl)),
        value_offset: spec_u64_from_le_bytes(bytes.subrange(24 + nl, 32 + nl)),
    }
}

/// True when `bytes` starts with one complete, well-formed contig record.
pub open spec fn entry_head_wf(bytes: Seq<u8>) -> bool {
    &&& bytes.len() >= 8
    &&& bytes.len() >= 32 + spec_u64_from_le_bytes(bytes.take(8)) as int
    &&& valid_utf8(bytes.subrange(8, 8 + spec_u64_from_le_bytes(bytes.take(8)) as int))
}

/// The length in bytes of the contig record at the front of `bytes`.
pub open spec fn entry_head_len(bytes: Seq<u8>) -> int {
    32 + spec_u64_from_le_bytes(bytes.take(8)) as int
}

/// Parses contig records from `bytes` until the end of input. Exactly empty
/// input is a complete record list; anything that is neither empty nor a
/// well-formed record followed by a parsable rest is rejected.
pub open spec fn spec_parse_entries(bytes: Seq<u8>) -> Option<Seq<EntryModel>>
    decreases bytes.len(),
{
    if bytes.len() == 0 {
        Some(Seq::empty())
    } else if !entry_head_wf(bytes) {
        None
    } else {
        match spec_parse_entries(bytes.skip(entry_head_len(bytes))) {
            Some(rest) => Some(seq![spec_entry_at(bytes)] + rest),
            None => None,
        }
    }
}

/// Parses a whole index stream: the magic tag, the stored allele-category
/// count, then contig records until the end of input.
pub open spec fn spec_parse_index(bytes: Seq<u8>) -> Option<IndexModel> {
    if bytes.len() < 16 || bytes.take(8) != spec_saf_magic() {
        None
    } else {
        match spec_parse_entries(bytes.skip(16)) {
            Some(entries) => Some(
                IndexModel { alleles: spec_u64_from_le_bytes(bytes.subrange(8, 16)), entries },
            ),
            None => None,
        }
    }
}

/// Decodes an index from a byte stream held in memory.
pub struct Reader {
    pub inner: Vec<u8>,
    pub pos: usize,
}

impl Reader {
    /// The bytes not yet consumed.
    pub open spec fn rem(&self) -> Seq<u8> {
        if self.pos <= self.inner@.len() {
            self.inner@.skip(self.pos as int)
        } else {
            Seq::empty()
        }
    }

    pub fn new(inner: Vec<u8>) -> (r: Self)
        ensures
            r.inner@ == inner@,
            r.pos == 0,
    {
        Self { inner, pos: 0 }
    }

    /// Reads one contig record at the current offset.
    fn read_entry(&mut self) -> (r: Result<Entry, SafError>)
        requires
            old(self).pos <= old(self).inner@.len(),
        ensures
            final(self).inner == old(self).inner,
            r is Ok <==> entry_head_wf(old(self).rem()) && spec_entry_at(old(self).rem()).n_sites
                <= usize::MAX,
            r matches Ok(e) ==> {
                &&& crate::saf::index::entry_model(e) == spec_entry_at(old(self).rem())
                &&& final(self).pos == old(self).pos + entry_head_len(old(self).rem())
                &&& final(self).pos <= final(self).inner@.len()
            },
            old(self).rem().len() > 0 && !entry_head_wf(old(self).rem()) && (old(
                self,
            ).rem().len() < 8 || old(self).rem().len() < entry_head_len(old(self).rem())) ==> r
                == Err::<Entry, SafError>(SafError::Truncated),
            entry_head_wf(old(self).rem()) && spec_entry_at(old(self).rem()).n_sites > usize::MAX
                ==> r == Err::<Entry, SafError>(SafError::CountOverflow),
    {
        let ghost rem = old(self).rem();
        let n = self.inner.len();
        if n - self.pos < 8 {
            return Err(SafError::Truncated);
        }
        let head = slice_subrange(self.inner.as_slice(), self.pos, self.pos + 8);
        assert(head@ =~= rem.take(8));
        let nl64 = u64_from_le_bytes(head);
        if nl64 > usize::MAX as u64 {
            // The record cannot fit in addressable memory, so the stream is
            // certainly shorter than the record claims to be.
            assert(rem.len() < 32 + nl64 as int);
            return Err(SafError::Truncated);
        }
        let nl = nl64 as usize;
        let after_len = n - self.pos - 8;
        if after_len < nl {
            return Err(SafError::Truncated);
        }
        if after_len - nl < 24 {
            return Err(SafError::Truncated);
        }
        let name_slice = slice_subrange(self.inner.as_slice(), self.pos + 8, self.pos + 8 + nl);
        assert(name_slice@ =~= rem.subrange(8, 8 + nl as int));
        let name_bytes = slice_to_vec(name_slice);
        let name = match utf8_to_string(name_bytes) {
            Some(name) => name,
            None => {
                return Err(SafError::InvalidName);
            },
        };
        let base = self.pos + 8 + nl;
        let sites_slice = slice_subrange(self.inner.as_slice(), base, base + 8);
        assert(sites_slice@ =~= rem.subrange(8 + nl as int, 16 + nl as int));
        let n_sites64 = u64_from_le_bytes(sites_slice);
        if n_sites64 > usize::MAX as u64 {
            return Err(SafError::CountOverflow);
        }
        let po_slice = slice_subrange(self.inner.as_slice(), base + 8, base + 16);
        assert(po_slice@ =~= rem.subrange(16 + nl as int, 24 + nl as int));
        let position_offset = u64_from_le_bytes(po_slice);
        let vo_slice = slice_subrange(self.inner.as_slice(), base + 16, base + 24);
        assert(vo_slice@ =~= rem.subrange(24 + nl as int, 32 + nl as int));
        let value_offset = u64_from_le_bytes(vo_slice);
        self.pos = base + 24;
        Ok(Entry::new(name, n_sites64 as usize, position_offset, value_offset))
    }

    /// Decodes the whole index: succeeds exactly when the stream parses and
    /// its counts fit the platform, and then returns the index the stream
    /// encodes.
    #[verifier::loop_isolation(false)]
    pub fn read_index(self) -> (r: Result<Index, SafError>)
        ensures
            r matches Ok(ix) ==> (spec_parse_index(self.inner@) matches Some(m) && index_models(
                ix,
                m,
            ) && index_fits(m)),
            (spec_parse_index(self.inner@) matches Some(m) && index_fits(m)) ==> r is Ok,
            self.inner@.len() >= 8 && self.inner@.take(8) != spec_saf_magic() ==> r
                == Err::<Index, SafError>(SafError::InvalidMagic),
            self.inner@.len() < 8 ==> r == Err::<Index, SafError>(SafError::Truncated),
    {
        let mut this = self;
        let ghost bytes = this.inner@;
        let magic = saf_magic();
        match read_magic(this.inner.as_slice(), &magic) {
            Ok(_) => {},
            Err(e) => {
                return Err(e);
            },
        }
        let n = this.inner.len();
        if n < 16 {
            return Err(SafError::Truncated);
        }
        let alleles_slice = slice_subrange(this.inner.as_slice(), 8, 16);
        assert(alleles_slice@ =~= bytes.subrange(8, 16));
        let alleles64 = u64_from_le_bytes(alleles_slice);
        if alleles64 > usize::MAX as u64 - 1 {
            proof {
                if spec_parse_index(bytes) is Some {
                    let m = spec_parse_index(bytes)->Some_0;
                    assert(!index_fits(m));
                }
            }
            return Err(SafError::CountOverflow);
        }
        let n_alleles = alleles64 as usize + 1;
        this.pos = 16;
        let mut entries: Vec<Entry> = Vec::new();
        proof {
            assert(this.rem() =~= bytes.skip(16));
            assert(entries@.map_values(|e: Entry| crate::saf::index::entry_model(e))
                =~= Seq::<EntryModel>::empty());
        }
        while this.pos < this.inner.len()
            invariant
                this.inner@ == bytes,
                this.pos <= this.inner@.len(),
                spec_parse_entries(bytes.skip(16)) == match spec_parse_entries(this.rem()) {
                    Some(rest) => Some(
                        entries@.map_values(|e: Entry| crate::saf::index::entry_model(e)) + rest,
                    ),
                    None => None::<Seq<EntryModel>>,
                },
                forall|i: int| 0 <= i < entries@.len() ==> (#[trigger] entries@[i]).n_sites
                    <= usize::MAX,
            decreases this.inner@.len() - this.pos,
        {
            let ghost rem_before = this.rem();
            let ghost models_before = entries@.map_values(
                |e: Entry| crate::saf::index::entry_model(e),
            );
            match this.read_entry() {
                Ok(e) => {
                    entries.push(e);
                    proof {
                        assert(rem_before.skip(entry_head_len(rem_before)) =~= this.rem());
                        assert(entries@.map_values(|e: Entry| crate::saf::index::entry_model(e))
                            =~= models_before.push(crate::saf::index::entry_model(e)));
                        assert(models_before + (seq![spec_entry_at(rem_before)]
                            + spec_parse_entries(this.rem())->Some_0) =~= (models_before.push(
                            crate::saf::index::entry_model(e),
                        ) + spec_parse_entries(this.rem())->Some_0));
                    }
                },
                Err(e) => {
                    proof {
                        if !entry_head_wf(rem_before) {
                            assert(spec_parse_entries(rem_before) is None);
                            assert(spec_parse_index(bytes) is None);
                        } else {
                            // The record itself is well-formed, so the failure
                            // is a site count over the platform limit; if the
                            // whole stream parses, that count is part of it.
                            assert(spec_entry_at(rem_before).n_sites > usize::MAX);
                            if spec_parse_entries(bytes.skip(16)) is Some {
                                let all = spec_parse_entries(bytes.skip(16))->Some_0;
                                let rest = spec_parse_entries(rem_before)->Some_0;
                                assert(rest[0] == spec_entry_at(rem_before));
                                assert(all == models_before + rest);
                                let k = models_before.len() as int;
                                assert(all[k] == spec_entry_at(rem_before));
                                assert(all[k].n_sites > usize::MAX);
                                if spec_parse_index(bytes) is Some {
                                    let m = spec_parse_index(bytes)->Some_0;
                                    assert(m.entries == all);
                                    assert(!index_fits(m));
                                }
                            } else {
                                assert(spec_parse_index(bytes) is None);
                            }
                        }
                    }
                    return Err(e);
                },
            }
        }
        proof {
            assert(this.rem() =~= Seq::<u8>::empty());
            assert(spec_parse_entries(this.rem()) == Some(Seq::<EntryModel>::empty()));
            assert(entries@.map_values(|e: Entry| crate::saf::index::entry_model(e))
                + Seq::<EntryModel>::empty() =~= entries@.map_values(
                |e: Entry| crate::saf::index::entry_model(e),
            ));
        }
        Ok(Index::new(n_alleles, entries))
    }
}

} // verus!
