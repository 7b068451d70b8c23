use vstd::prelude::*;

pub mod iter;
pub mod sequence_dict;

pub use iter::MergedSites;
pub use sequence_dict::SequenceDict;

verus! {

/// A genomic location: a contig name and a position on that contig. The
/// merge engine aligns any such values across datasets.
pub trait Position: Sized {
    /// The contig name.
    spec fn spec_name(&self) -> Seq<char>;

    /// The 0-based position on the contig.
    spec fn spec_position(&self) -> u32;

    fn name(&self) -> (r: &str)
        ensures
            r@ == self.spec_name(),
    ;

    fn position(&self) -> (r: u32)
        ensures
            r == self.spec_position(),
    ;

    fn same_location(&self, other: &Self) -> (r: bool)
        ensures
            r == (self.spec_name() == other.spec_name() && self.spec_position()
                == other.spec_position()),
    ;
}

} // verus!
