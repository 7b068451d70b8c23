use vstd::prelude::*;

pub mod entry;
pub mod reader;
pub mod writer;

pub use entry::Entry;

verus! {

/// The name of every site of the listed contigs, in stream order: each
/// entry's name repeated once per site of that entry.
pub open spec fn expand_entries(entries: Seq<Entry>) -> Seq<Seq<char>>
    decreases entries.len(),
{
    if entries.len() == 0 {
        Seq::empty()
    } else {
        Seq::new(entries.first().n_sites as nat, |i: int| entries.first().name@)
            + expand_entries(entries.drop_first())
    }
}

/// The sum of the per-contig site counts.
pub open spec fn total_sites(entries: Seq<Entry>) -> int
    decreases entries.len(),
{
    if entries.len() == 0 {
        0
    } else {
        entries.first().n_sites + total_sites(entries.drop_first())
    }
}

pub proof fn lemma_total_sites_nonneg(entries: Seq<Entry>)
    ensures
        total_sites(entries) >= 0,
    decreases entries.len(),
{
    if entries.len() > 0 {
        lemma_total_sites_nonneg(entries.drop_first());
    }
}

pub proof fn lemma_total_sites_take_succ(entries: Seq<Entry>, i: int)
    requires
        0 <= i < entries.len(),
    ensures
        total_sites(entries.take(i + 1)) == total_sites(entries.take(i)) + entries[i].n_sites,
    decreases i,
{
    if i == 0 {
        assert(entries.take(1).drop_first() =~= Seq::<Entry>::empty());
        assert(entries.take(0) =~= Seq::<Entry>::empty());
        assert(entries.take(1).first() == entries[0]);
    } else {
        let rest = entries.drop_first();
        assert(entries.take(i + 1).drop_first() =~= rest.take(i));
        assert(entries.take(i).drop_first() =~= rest.take(i - 1));
        assert(entries.take(i + 1).first() == entries.first());
        assert(entries.take(i).first() == entries.first());
        lemma_total_sites_take_succ(rest, i - 1);
        assert(rest[i - 1] == entries[i]);
    }
}

pub proof fn lemma_total_sites_take_bound(entries: Seq<Entry>, i: int)
    requires
        0 <= i <= entries.len(),
    ensures
        total_sites(entries.take(i)) <= total_sites(entries),
    decreases entries.len(),
{
    if i == 0 {
        assert(entries.take(0) =~= Seq::<Entry>::empty());
        lemma_total_sites_nonneg(entries);
    } else {
        let rest = entries.drop_first();
        assert(entries.take(i).drop_first() =~= rest.take(i - 1));
        assert(entries.take(i).first() == entries.first());
        lemma_total_sites_take_bound(rest, i - 1);
    }
}

/// The number of names in the expansion of an index equals the sum of the
/// per-contig site counts it lists.
pub proof fn lemma_expand_entries_len(entries: Seq<Entry>)
    ensures
        expand_entries(entries).len() == total_sites(entries),
    decreases entries.len(),
{
    if entries.len() > 0 {
        lemma_expand_entries_len(entries.drop_first());
    }
}

/// The mathematical content of one contig record, as the on-disk format
/// stores it: the stored site count is a full 64-bit value.
#[verifier::ext_equal]
pub struct EntryModel {
    pub name: Seq<char>,
    pub n_sites: u64,
    pub position_offset: u64,
    pub value_offset: u64,
}

/// The mathematical content of an index: the stored allele-category count
/// (one less than the number of values per site) and the contig records.
#[verifier::ext_equal]
pub struct IndexModel {
    pub alleles: u64,
    pub entries: Seq<EntryModel>,
}

/// The model of one in-memory contig record.
pub open spec fn entry_model(e: Entry) -> EntryModel {
    EntryModel {
        name: e.name@,
        n_sites: e.n_sites as u64,
        position_offset: e.position_offset,
        value_offset: e.value_offset,
    }
}

/// The model of an in-memory index; defined when it has at least one allele
/// category.
pub open spec fn index_model(ix: Index) -> IndexModel {
    IndexModel {
        alleles: (ix.n_alleles - 1) as u64,
        entries: ix.entries@.map_values(|e: Entry| entry_model(e)),
    }
}

/// True when the in-memory index `ix` carries exactly the content of the
/// model `m`.
pub open spec fn index_models(ix: Index, m: IndexModel) -> bool {
    &&& ix.n_alleles == m.alleles + 1
    &&& ix.entries@.map_values(|e: Entry| entry_model(e)) == m.entries
}

/// True when every count of the model fits the platform's `usize`.
pub open spec fn index_fits(m: IndexModel) -> bool {
    &&& m.alleles + 1 <= usize::MAX
    &&& forall|i: int| 0 <= i < m.entries.len() ==> (#[trigger] m.entries[i]).n_sites <= usize::MAX
}

/// The decoded index of a SAF dataset: the number of allele categories per
/// site and the ordered contig records.
#[derive(Clone, Debug, Default, PartialEq)]
pub struct Index {
    pub n_alleles: usize,
    pub entries: Vec<Entry>,
}

impl Index {
    /// Returns a cursor over the name of every site, in stream order.
    pub fn iter_names(&self) -> (r: Names)
        ensures
            r.remaining() =~= expand_entries(self.entries@),
    {
        Names::new(self)
    }

    /// Returns the contig records.
    pub fn entries(&self) -> (r: &Vec<Entry>)
        ensures
            r == &self.entries,
    {
        &self.entries
    }

    /// Returns the contig records for modification; the allele-category
    /// count is untouched.
    pub fn entries_mut(&mut self) -> (r: &mut Vec<Entry>)
        ensures
            *r == old(self).entries,
            final(self).entries == *final(r),
            final(self).n_alleles == old(self).n_alleles,
    {
        &mut self.entries
    }

    /// Consumes the index, returning the contig records.
    pub fn into_entries(self) -> (r: Vec<Entry>)
        ensures
            r == self.entries,
    {
        self.entries
    }

    /// Returns the contig names, in index order.
    pub fn names(&self) -> (r: Vec<&str>)
        ensures
            r@.len() == self.entries@.len(),
            forall|i: int| 0 <= i < r@.len() ==> r@[i]@ == self.entries@[i].name@,
    {
        let mut names: Vec<&str> = Vec::new();
        let mut i: usize = 0;
        while i < self.entries.len()
            invariant
                i <= self.entries@.len(),
                names@.len() == i,
                forall|j: int| 0 <= j < i ==> names@[j]@ == self.entries@[j].name@,
            decreases self.entries@.len() - i,
        {
            names.push(self.entries[i].name());
            i += 1;
        }
        names
    }

    /// Returns the number of allele categories stored per site.
    pub fn n_alleles(&self) -> (r: usize)
        ensures
            r == self.n_alleles,
    {
        self.n_alleles
    }

    /// Returns the total number of sites in the dataset: the sum of the
    /// per-contig site counts.
    pub fn n_sites(&self) -> (r: usize)
        requires
            total_sites(self.entries@) <= usize::MAX,
        ensures
            r == total_sites(self.entries@),
    {
        let entries = &self.entries;
        let mut sum: usize = 0;
        let mut i: usize = 0;
        assert(entries@.take(0) =~= Seq::<Entry>::empty());
        while i < entries.len()
            invariant
                i <= entries@.len(),
                total_sites(entries@) <= usize::MAX,
                sum == total_sites(entries@.take(i as int)),
            decreases entries@.len() - i,
        {
            proof {
                lemma_total_sites_take_succ(entries@, i as int);
                lemma_total_sites_take_bound(entries@, i as int + 1);
                lemma_total_sites_nonneg(entries@.take(i as int));
            }
            sum = sum + entries[i].n_sites;
            i += 1;
        }
        assert(entries@.take(entries@.len() as int) =~= entries@);
        sum
    }

    pub fn new(n_alleles: usize, entries: Vec<Entry>) -> (r: Self)
        ensures
            r.n_alleles == n_alleles,
            r.entries == entries,
    {
        Self { n_alleles, entries }
    }

    /// Decodes an index from a reader over its byte stream: succeeds exactly
    /// when the stream parses and its counts fit the platform.
    pub fn from_reader(reader: reader::Reader) -> (r: Result<Self, crate::error::SafError>)
        ensures
            r matches Ok(ix) ==> (reader::spec_parse_index(reader.inner@) matches Some(m)
                && index_models(ix, m) && index_fits(m)),
            (reader::spec_parse_index(reader.inner@) matches Some(m) && index_fits(m)) ==> r is Ok,
            reader.inner@.len() >= 8 && reader.inner@.take(8)
                != crate::saf::constants::spec_saf_magic() ==> r == Err::<
                Self,
                crate::error::SafError,
            >(crate::error::SafError::InvalidMagic),
            reader.inner@.len() < 8 ==> r == Err::<Self, crate::error::SafError>(
                crate::error::SafError::Truncated,
            ),
    {
        reader.read_index()
    }
}

/// Copies a list of contig records field by field.
pub(crate) fn clone_entries(entries: &Vec<Entry>) -> (r: Vec<Entry>)
    ensures
        r@ == entries@,
{
    let mut out: Vec<Entry> = Vec::new();
    let mut i: usize = 0;
    while i < entries.len()
        invariant
            i <= entries@.len(),
            out@ =~= entries@.take(i as int),
        decreases entries@.len() - i,
    {
        let e = &entries[i];
        out.push(Entry::new(e.name.clone(), e.n_sites, e.position_offset, e.value_offset));
        assert(out@ =~= entries@.take(i as int + 1));
        i += 1;
    }
    assert(out@ =~= entries@);
    out
}

/// Yields the name of every site of an index in stream order, expanding each
/// contig record to one name per site.
#[derive(Clone, Debug)]
pub struct Names {
    pub entries: Vec<Entry>,
    pub current: usize,
    pub iter: entry::Names,
}

impl Names {
    /// The names this cursor has yet to yield.
    pub open spec fn remaining(&self) -> Seq<Seq<char>> {
        self.iter.remaining() + if self.current + 1 <= self.entries@.len() {
            expand_entries(self.entries@.skip(self.current + 1))
        } else {
            Seq::empty()
        }
    }

    fn new(index: &Index) -> (r: Self)
        ensures
            r.remaining() =~= expand_entries(index.entries@),
    {
        let entries = clone_entries(&index.entries);
        if entries.len() == 0 {
            let r = Self { entries, current: 0, iter: entry::Names::new(String::new(), 0) };
            r
        } else {
            let iter = entries[0].iter_names();
            let r = Self { entries, current: 0, iter };
            proof {
                assert(r.entries@.skip(1) =~= index.entries@.drop_first());
                assert(r.remaining() =~= expand_entries(index.entries@));
            }
            r
        }
    }

    /// Yields the next site name, or `None` when every contig is exhausted.
    pub fn next(&mut self) -> (r: Option<String>)
        ensures
            old(self).remaining().len() > 0 ==> (r matches Some(s) && s@ == old(
                self,
            ).remaining()[0] && final(self).remaining() =~= old(self).remaining().drop_first()),
            old(self).remaining().len() == 0 ==> r is None && final(self).remaining()
                =~= Seq::<Seq<char>>::empty(),
    {
        loop
            invariant
                self.remaining() == old(self).remaining(),
            decreases self.entries@.len() - self.current,
        {
            let ghost pre = *self;
            match self.iter.next() {
                Some(v) => {
                    proof {
                        assert(pre.iter.remaining().len() > 0);
                        assert(self.remaining() =~= old(self).remaining().drop_first());
                    }
                    return Some(v);
                },
                None => {
                    assert(pre.iter.remaining().len() == 0);
                    assert(pre.remaining() =~= old(self).remaining());
                    if self.current >= self.entries.len() {
                        assert(self.remaining() =~= Seq::<Seq<char>>::empty());
                        return None;
                    }
                    self.current += 1;
                    if self.current >= self.entries.len() {
                        proof {
                            assert(pre.entries@.skip(pre.current + 1)
                                =~= Seq::<Entry>::empty());
                            assert(self.remaining() =~= Seq::<Seq<char>>::empty());
                        }
                        return None;
                    }
                    self.iter = self.entries[self.current].iter_names();
                    proof {
                        let s = pre.entries@.skip(pre.current + 1);
                        assert(s.first() == self.entries@[self.current as int]);
                        assert(s.drop_first() =~= self.entries@.skip(self.current + 1));
                        assert(self.remaining() =~= expand_entries(s));
                        assert(self.remaining() =~= old(self).remaining());
                    }
                },
            }
        }
    }
}

} // verus!
