use vstd::prelude::*;

verus! {

/// One record of a SAF index: a contig name, the number of sites stored for
/// that contig, and the byte offsets of the contig's first site within the
/// two compressed streams.
#[derive(Clone, Debug, Default, PartialEq)]
pub struct Entry {
    pub name: String,
    pub n_sites: usize,
    pub position_offset: u64,
    pub value_offset: u64,
}

impl Entry {
    /// Returns the contig name.
    pub fn name(&self) -> (r: &str)
        ensures
            r@ == self.name@,
    {
        self.name.as_str()
    }

    pub(crate) fn iter_names(&self) -> (r: Names)
        ensures
            r.remaining() =~= Seq::new(self.n_sites as nat, |i: int| self.name@),
    {
        Names::new(self.name.clone(), self.n_sites)
    }

    pub fn new(name: String, n_sites: usize, position_offset: u64, value_offset: u64) -> (r: Self)
        ensures
            r.name == name,
            r.n_sites == n_sites,
            r.position_offset == position_offset,
            r.value_offset == value_offset,
    {
        Self { name, n_sites, position_offset, value_offset }
    }

    /// Returns the number of sites recorded for this contig.
    pub fn n_sites(&self) -> (r: usize)
        ensures
            r == self.n_sites,
    {
        self.n_sites
    }
}

/// Yields one contig name `n_sites` times: the per-entry step of expanding
/// an index into the name of each site in turn.
#[derive(Clone, Debug, Default)]
pub struct Names {
    pub name: String,
    pub n_sites: usize,
    pub current: usize,
}

impl Names {
    /// The names this cursor has yet to yield.
    pub open spec fn remaining(&self) -> Seq<Seq<char>> {
        if self.current <= self.n_sites {
            Seq::new((self.n_sites - self.current) as nat, |i: int| self.name@)
        } else {
            Seq::empty()
        }
    }

    pub fn new(name: String, n_sites: usize) -> (r: Self)
        ensures
            r.remaining() =~= Seq::new(n_sites as nat, |i: int| name@),
    {
        Self { name, n_sites, current: 0 }
    }

    /// Yields the next name, or `None` when the entry is exhausted.
    pub fn next(&mut self) -> (r: Option<String>)
        ensures
            old(self).remaining().len() > 0 ==> (r matches Some(s) && s@ == old(
                self,
            ).remaining()[0] && final(self).remaining() =~= old(self).remaining().drop_first()),
            old(self).remaining().len() == 0 ==> r is None && *final(self) == *old(self),
    {
        if self.current < self.n_sites {
            self.current += 1;
            Some(self.name.clone())
        } else {
            None
        }
    }
}

} // verus!
