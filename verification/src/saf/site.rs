use vstd::prelude::*;

use crate::error::SafError;
use crate::merge::Position;

verus! {

/// One decoded site: its contig name, its 0-based position, and one stored
/// likelihood value per allele category. A value is carried as the raw
/// little-endian 32-bit word read from the stream; the codec never
/// interprets it as a number.
#[derive(Clone, Debug, Default)]
pub struct Site {
    pub name: String,
    pub position: u32,
    pub values: Vec<u32>,
}

impl Site {
    /// Builds a site from the three component reads, propagating the first
    /// failure among them.
    pub(crate) fn from_io(
        name: String,
        position: Result<u32, SafError>,
        values: Result<Vec<u32>, SafError>,
    ) -> (r: Result<Self, SafError>)
        ensures
            position matches Ok(p) ==> values matches Ok(v) ==> (r matches Ok(s)
                && s.name == name
                && s.position == p
                && s.values == v),
            position matches Err(e) ==> r == Err::<Self, SafError>(e),
            position is Ok && values is Err ==> (values matches Err(e) && r == Err::<Self, SafError>(e)),
    {
        let position = match position {
            Ok(p) => p,
            Err(e) => {
                return Err(e);
            },
        };
        let values = match values {
            Ok(v) => v,
            Err(e) => {
                return Err(e);
            },
        };
        Ok(Self { name, position, values })
    }

    /// Consumes the site, returning its stored value words.
    pub fn into_values(self) -> (r: Vec<u32>)
        ensures
            r == self.values,
    {
        self.values
    }

    /// Returns the contig name.
    pub fn name(&self) -> (r: &str)
        ensures
            r@ == self.name@,
    {
        self.name.as_str()
    }

    pub fn new(name: String, position: u32, values: Vec<u32>) -> (r: Self)
        ensures
            r.name == name,
            r.position == position,
            r.values == values,
    {
        Self { name, position, values }
    }

    /// Returns the stored value words.
    pub fn values(&self) -> (r: &Vec<u32>)
        ensures
            r == &self.values,
    {
        &self.values
    }

    /// Returns the stored value words for modification.
    pub fn values_mut(&mut self) -> (r: &mut Vec<u32>)
        ensures
            *r == old(self).values,
            final(self).values == *final(r),
            final(self).name == old(self).name,
            final(self).position == old(self).position,
    {
        &mut self.values
    }

    /// Returns the 0-based position.
    pub fn position(&self) -> (r: u32)
        ensures
            r == self.position,
    {
        self.position
    }

    /// True when two sites lie on the same contig at the same position.
    pub fn same_location(&self, other: &Self) -> (r: bool)
        ensures
            r == (self.name@ == other.name@ && self.position == other.position),
    {
        self.name == other.name && self.position == other.position
    }
}

impl Position for Site {
    open spec fn spec_name(&self) -> Seq<char> {
        self.name@
    }

    open spec fn spec_position(&self) -> u32 {
        self.position
    }

    fn name(&self) -> (r: &str) {
        self.name.as_str()
    }

    fn position(&self) -> (r: u32) {
        self.position
    }

    fn same_location(&self, other: &Self) -> (r: bool) {
        self.name == other.name && self.position == other.position
    }
}

} // verus!
