use vstd::prelude::*;

use crate::error::SafError;
use crate::saf::index;
use crate::saf::read::{BinaryRead, PositionReader, ValueReader};
use crate::saf::site::Site;

verus! {

/// Yields the units of a binary reader one at a time; a clean end of data
/// ends the sequence, an end of data inside a unit is yielded as an error.
pub struct BinaryIterMut<R> {
    pub inner: R,
}

impl<R> BinaryIterMut<R> {
    pub fn new(inner: R) -> (r: Self)
        ensures
            r.inner == inner,
    {
        Self { inner }
    }
}

impl<R: BinaryRead> BinaryIterMut<R> {

    /// Yields the next unit, the end of the sequence, or the error that ends
    /// it.
    pub fn next(&mut self) -> (r: Option<Result<R::Value, SafError>>)
        requires
            old(self).inner.inv(),
        ensures
            final(self).inner.inv(),
            old(self).inner.units().len() > 0 ==> (r matches Some(x)
                && x matches Ok(v)
                && v == old(self).inner.units()[0]
                && final(self).inner.units() == old(self).inner.units().drop_first()
                && final(self).inner.clean() == old(self).inner.clean()),
            old(self).inner.units().len() == 0 && old(self).inner.clean() ==> (r is None
                && *final(self) == *old(self)),
            old(self).inner.units().len() == 0 && !old(self).inner.clean() ==> (r matches Some(x)
                && x matches Err(e)
                && e == SafError::Truncated
                && *final(self) == *old(self)),
    {
        match self.inner.read() {
            Ok(Some(v)) => Some(Ok(v)),
            Ok(None) => None,
            Err(e) => Some(Err(e)),
        }
    }
}

/// Yields the units of a binary reader a fixed number at a time; a clean end
/// of data before a chunk ends the sequence, an end of data inside a chunk
/// is yielded as an error.
pub struct BinaryChunksMut<R> {
    pub inner: R,
    pub chunk_size: usize,
}

impl<R> BinaryChunksMut<R> {
    pub fn new(inner: R, chunk_size: usize) -> (r: Self)
        ensures
            r.inner == inner,
            r.chunk_size == chunk_size,
    {
        Self { inner, chunk_size }
    }
}

impl<R: BinaryRead> BinaryChunksMut<R> {

    /// Yields the next chunk, the end of the sequence, or the error that
    /// ends it.
    pub fn next(&mut self) -> (r: Option<Result<Vec<R::Value>, SafError>>)
        requires
            old(self).inner.inv(),
            old(self).chunk_size > 0,
        ensures
            final(self).inner.inv(),
            final(self).chunk_size == old(self).chunk_size,
            old(self).inner.units().len() >= old(self).chunk_size ==> (r matches Some(x)
                && x matches Ok(v)
                && v@ == old(self).inner.units().take(old(self).chunk_size as int)
                && final(self).inner.units() == old(self).inner.units().skip(
                old(self).chunk_size as int,
            )
                && final(self).inner.clean() == old(self).inner.clean()),
            old(self).inner.units().len() == 0 && old(self).inner.clean() ==> (r is None
                && *final(self) == *old(self)),
            old(self).inner.units().len() == 0 && !old(self).inner.clean() ==> (r matches Some(x)
                && x matches Err(e)
                && e == SafError::Truncated
                && *final(self) == *old(self)),
            0 < old(self).inner.units().len() < old(self).chunk_size ==> (r matches Some(x)
                && x matches Err(e)
                && e == SafError::Truncated),
    {
        match self.inner.read_exact(self.chunk_size) {
            Ok(Some(v)) => Some(Ok(v)),
            Ok(None) => None,
            Err(e) => Some(Err(e)),
        }
    }
}

/// Zips the three component streams of one dataset into a sequence of
/// decoded sites: contig names expanded from the index, one position per
/// site, and one chunk of values per site.
pub struct Sites {
    pub names: index::Names,
    pub positions: BinaryIterMut<PositionReader>,
    pub values: BinaryChunksMut<ValueReader>,
    pub remaining: usize,
    pub done: bool,
}

impl Sites {
    /// Well-formedness of the sequencer's state.
    pub open spec fn inv(&self) -> bool {
        &&& self.positions.inner.wf()
        &&& self.values.inner.wf()
        &&& self.values.chunk_size > 0
    }

    /// The number of values per site.
    pub open spec fn k(&self) -> int {
        self.values.chunk_size as int
    }

    /// The site names not yet yielded.
    pub open spec fn rem_names(&self) -> Seq<Seq<char>> {
        self.names.remaining()
    }

    /// The positions not yet yielded.
    pub open spec fn rem_pos(&self) -> Seq<u32> {
        self.positions.inner.units()
    }

    /// The value words not yet yielded.
    pub open spec fn rem_vals(&self) -> Seq<u32> {
        self.values.inner.units()
    }

    /// True when the three streams are exhausted together, cleanly: the
    /// normal end of a dataset.
    pub open spec fn at_end(&self) -> bool {
        &&& self.rem_names().len() == 0
        &&& self.rem_pos().len() == 0
        &&& self.positions.inner.clean()
        &&& self.rem_vals().len() == 0
        &&& self.values.inner.clean()
    }

    /// True when every stream can deliver one more site.
    pub open spec fn can_step(&self) -> bool {
        &&& self.rem_names().len() > 0
        &&& self.rem_pos().len() > 0
        &&& self.rem_vals().len() >= self.k()
    }

    /// True when no stream has ended, though one may be truncated.
    pub open spec fn none_ended(&self) -> bool {
        &&& self.rem_names().len() > 0
        &&& !(self.rem_pos().len() == 0 && self.positions.inner.clean())
        &&& !(self.rem_vals().len() == 0 && self.values.inner.clean())
    }

    /// True when the whole remainder is a well-formed dataset body: one
    /// position and one value chunk per site name, and nothing left over.
    pub open spec fn well_formed(&self) -> bool {
        &&& !self.done
        &&& self.rem_pos().len() == self.rem_names().len()
        &&& self.rem_vals().len() == self.k() * self.rem_names().len()
        &&& self.positions.inner.clean()
        &&& self.values.inner.clean()
    }

    pub fn new(
        names: index::Names,
        positions: BinaryIterMut<PositionReader>,
        values: BinaryChunksMut<ValueReader>,
        n_sites: usize,
    ) -> (r: Self)
        ensures
            r.names == names,
            r.positions == positions,
            r.values == values,
            r.remaining == n_sites,
            !r.done,
    {
        Self { names, positions, values, remaining: n_sites, done: false }
    }

    /// The advisory count of sites left, taken from the index.
    pub fn len(&self) -> (r: usize)
        ensures
            r == self.remaining,
    {
        self.remaining
    }

    /// Yields the next site of the dataset. The three streams end together
    /// on a well-formed dataset; a stream that ends early, or ends inside a
    /// record, yields one error, after which the sequence has ended.
    pub fn next(&mut self) -> (r: Option<Result<Site, SafError>>)
        requires
            old(self).inv(),
        ensures
            final(self).inv(),
            old(self).done ==> r is None && *final(self) == *old(self),
            !old(self).done && old(self).at_end() ==> (r is None
                && final(self).at_end()
                && final(self).done == old(self).done
                && final(self).remaining == old(self).remaining
                && final(self).k() == old(self).k()),
            !old(self).done && old(self).can_step() ==> (r matches Some(x)
                && x matches Ok(site)
                && site.name@ == old(self).rem_names()[0]
                && site.position == old(self).rem_pos()[0]
                && site.values@ == old(self).rem_vals().take(old(self).k())
                && final(self).rem_names() =~= old(self).rem_names().drop_first()
                && final(self).rem_pos() == old(self).rem_pos().drop_first()
                && final(self).rem_vals() == old(self).rem_vals().skip(old(self).k())
                && final(self).positions.inner.clean() == old(self).positions.inner.clean()
                && final(self).values.inner.clean() == old(self).values.inner.clean()
                && final(self).k() == old(self).k()
                && !final(self).done
                && final(self).remaining == (if old(self).remaining > 0 {
                    (old(self).remaining - 1) as usize
                } else {
                    0usize
                })),
            !old(self).done && old(self).none_ended() && !old(self).can_step() ==> (r matches Some(
                x,
            )
                && x matches Err(e)
                && e == SafError::Truncated
                && final(self).done),
            !old(self).done && !old(self).at_end() && !old(self).none_ended() ==> (r matches Some(
                x,
            )
                && x matches Err(e)
                && e == SafError::IncompatibleLengths
                && final(self).done),
    {
        if self.done {
            return None;
        }
        let n = self.names.next();
        let p = self.positions.next();
        let v = self.values.next();
        match (n, p, v) {
            (None, None, None) => None,
            (Some(name), Some(p), Some(v)) => {
                if self.remaining > 0 {
                    self.remaining = self.remaining - 1;
                }
                let site = Site::from_io(name, p, v);
                if site.is_err() {
                    self.done = true;
                }
                Some(site)
            },
            _ => {
                self.done = true;
                Some(Err(SafError::IncompatibleLengths))
            },
        }
    }

    /// Decodes every remaining site of a well-formed dataset: one site per
    /// name, in stream order, each carrying its position and its value
    /// chunk.
    #[verifier::loop_isolation(false)]
    pub fn read_all(&mut self) -> (r: Result<Vec<Site>, SafError>)
        requires
            old(self).inv(),
            old(self).well_formed(),
        ensures
            final(self).inv(),
            r matches Ok(sites) ==> (sites@.len() == old(self).rem_names().len()
                && (forall|i: int|
                    0 <= i < sites@.len() ==> {
                        &&& (#[trigger] sites@[i]).name@ == old(self).rem_names()[i]
                        &&& sites@[i].position == old(self).rem_pos()[i]
                        &&& sites@[i].values@ == old(self).rem_vals().subrange(
                            old(self).k() * i,
                            old(self).k() * i + old(self).k(),
                        )
                    })),
            r is Ok,
    {
        let ghost names0 = self.rem_names();
        let ghost pos0 = self.rem_pos();
        let ghost vals0 = self.rem_vals();
        let ghost k = self.k();
        let mut sites: Vec<Site> = Vec::new();
        loop
            invariant
                self.inv(),
                self.well_formed(),
                self.k() == k,
                sites@.len() <= names0.len(),
                self.rem_names() =~= names0.skip(sites@.len() as int),
                self.rem_pos() == pos0.skip(sites@.len() as int),
                self.rem_vals() == vals0.skip(k * sites@.len()),
                forall|i: int|
                    0 <= i < sites@.len() ==> {
                        &&& (#[trigger] sites@[i]).name@ == names0[i]
                        &&& sites@[i].position == pos0[i]
                        &&& sites@[i].values@ == vals0.subrange(k * i, k * i + k)
                    },
            decreases self.rem_names().len(),
        {
            let ghost pre = *self;
            let ghost done_count = sites@.len() as int;
            proof {
                assert(k * done_count >= 0 && k * done_count <= vals0.len()) by (nonlinear_arith)
                    requires
                        k > 0,
                        0 <= done_count <= names0.len(),
                        vals0.len() == k * names0.len(),
                ;
                if pre.rem_names().len() > 0 {
                    assert(pre.rem_vals().len() == k * (names0.len() - done_count))
                        by (nonlinear_arith)
                        requires
                            pre.rem_vals().len() == vals0.len() - k * done_count,
                            vals0.len() == k * names0.len(),
                    ;
                    assert(pre.rem_vals().len() >= k) by (nonlinear_arith)
                        requires
                            pre.rem_vals().len() == k * (names0.len() - done_count),
                            k > 0,
                            names0.len() - done_count >= 1,
                    ;
                    assert(pre.can_step());
                }
            }
            match self.next() {
                None => {
                    break;
                },
                Some(Ok(site)) => {
                    proof {
                        assert(pre.rem_names().len() > 0);
                        assert(site.name@ == names0[done_count]);
                        assert(site.position == pos0[done_count]);
                        assert(site.values@ =~= vals0.subrange(
                            k * done_count,
                            k * done_count + k,
                        ));
                    }
                    sites.push(site);
                    proof {
                        assert(self.rem_names() =~= names0.skip(done_count + 1));
                        assert(self.rem_pos() =~= pos0.skip(done_count + 1));
                        assert(k * (done_count + 1) == k * done_count + k) by (nonlinear_arith);
                        assert(self.rem_vals() =~= vals0.skip(k * (done_count + 1)));
                        assert(self.rem_vals().len() == k * self.rem_names().len())
                            by (nonlinear_arith)
                            requires
                                self.rem_vals().len() == vals0.len() - k * (done_count + 1),
                                vals0.len() == k * names0.len(),
                                self.rem_names().len() == names0.len() - done_count - 1,
                        ;
                    }
                },
                Some(Err(_)) => {
                    proof {
                        assert(false);
                    }
                    break;
                },
            }
        }
        assert(sites@.len() == names0.len());
        Ok(sites)
    }
}

} // verus!
