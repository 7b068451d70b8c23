use core::cmp::Ordering;
use vstd::prelude::*;

use crate::merge::Position;
use crate::utils::str_eq;
use crate::saf::index::Index;
use crate::saf::read::Reader;

verus! {

#[verifier::external_type_specification]
#[verifier::external_body]
#[verifier::reject_recursive_types(T)]
#[verifier::reject_recursive_types(S)]
pub struct ExIndexSet<T, S>(indexmap::IndexSet<T, S>);

/// The contig names an ordered set holds, in insertion order.
pub uninterp spec fn iset_names(s: indexmap::IndexSet<String>) -> Seq<Seq<char>>;

/// Relies on `IndexSet::default` (indexmap): a new set is empty.
#[verifier::external_body]
fn iset_new() -> (r: indexmap::IndexSet<String>)
    ensures
        iset_names(r) == Seq::<Seq<char>>::empty(),
{
    indexmap::IndexSet::default()
}

/// Relies on `IndexSet::insert` (indexmap): an equivalent value already in
/// the set leaves it untouched; otherwise the value is appended, keeping
/// insertion order.
#[verifier::external_body]
fn iset_insert(s: &mut indexmap::IndexSet<String>, v: String)
    ensures
        iset_names(*final(s)) == (if iset_names(*old(s)).contains(v@) {
            iset_names(*old(s))
        } else {
            iset_names(*old(s)).push(v@)
        }),
{
    s.insert(v);
}

/// Relies on `IndexSet::contains` (indexmap): membership by equivalence,
/// which for strings is text equality.
#[verifier::external_body]
fn iset_contains(s: &indexmap::IndexSet<String>, v: &str) -> (r: bool)
    ensures
        r == iset_names(*s).contains(v@),
{
    s.contains(v)
}

/// Relies on `IndexSet::get_index_of` (indexmap): the insertion-order index
/// of an equivalent value, if the set holds one.
#[verifier::external_body]
fn iset_get_index_of(s: &indexmap::IndexSet<String>, v: &str) -> (r: Option<usize>)
    ensures
        r matches Some(i) ==> i < iset_names(*s).len() && iset_names(*s)[i as int] == v@,
        (r is Some) == iset_names(*s).contains(v@),
{
    s.get_index_of(v)
}

/// The contig names an index lists, in index order.
pub open spec fn index_names(ix: Index) -> Seq<Seq<char>> {
    ix.entries@.map_values(|e: crate::saf::index::Entry| e.name@)
}

/// True when every dataset after the first also lists the name.
pub open spec fn in_all_rest(n: Seq<char>, namess: Seq<Seq<Seq<char>>>) -> bool {
    forall|k: int| 1 <= k < namess.len() ==> (#[trigger] namess[k]).contains(n)
}

/// The dictionary built from a prefix of the first dataset's names: each
/// name that every other dataset also lists, at its first occurrence, in
/// first-dataset order.
pub open spec fn sd_build(first: Seq<Seq<char>>, namess: Seq<Seq<Seq<char>>>) -> Seq<Seq<char>>
    decreases first.len(),
{
    if first.len() == 0 {
        Seq::empty()
    } else {
        let prev = sd_build(first.drop_last(), namess);
        let n = first.last();
        if in_all_rest(n, namess) && !prev.contains(n) {
            prev.push(n)
        } else {
            prev
        }
    }
}

/// The dictionary of a merge: the ordered intersection of all datasets'
/// contig names, in the order they first occur in the first dataset.
pub open spec fn spec_dict(namess: Seq<Seq<Seq<char>>>) -> Seq<Seq<char>> {
    if namess.len() == 0 {
        Seq::empty()
    } else {
        sd_build(namess[0], namess)
    }
}

/// A name stands in the dictionary exactly when the first dataset lists it
/// and every other dataset lists it too.
pub proof fn lemma_dict_membership(first: Seq<Seq<char>>, namess: Seq<Seq<Seq<char>>>, n: Seq<char>)
    ensures
        sd_build(first, namess).contains(n) <==> (first.contains(n) && in_all_rest(n, namess)),
    decreases first.len(),
{
    if first.len() == 0 {
    } else {
        let dl = first.drop_last();
        lemma_dict_membership(dl, namess, n);
        let prev = sd_build(dl, namess);
        let cur = sd_build(first, namess);
        let last = first.last();
        if dl.contains(n) {
            let i = choose|i: int| 0 <= i < dl.len() && dl[i] == n;
            assert(first[i] == n);
        }
        assert(first[first.len() - 1] == last);
        if first.contains(n) && !dl.contains(n) {
            let i = choose|i: int| 0 <= i < first.len() && first[i] == n;
            if i < first.len() - 1 {
                assert(dl[i] == n);
            }
            assert(n == last);
        }
        if in_all_rest(last, namess) && !prev.contains(last) {
            assert(cur == prev.push(last));
            lemma_contains_push(prev, last, n);
        } else {
            assert(cur == prev);
        }
    }
}

/// The dictionary lists each of its names once.
pub proof fn lemma_dict_nodup(first: Seq<Seq<char>>, namess: Seq<Seq<Seq<char>>>)
    ensures
        forall|i: int, j: int|
            0 <= i < j < sd_build(first, namess).len() ==> sd_build(first, namess)[i] != sd_build(
                first,
                namess,
            )[j],
    decreases first.len(),
{
    if first.len() > 0 {
        lemma_dict_nodup(first.drop_last(), namess);
        let prev = sd_build(first.drop_last(), namess);
        let cur = sd_build(first, namess);
        let last = first.last();
        if cur != prev {
            assert(cur == prev.push(last));
            assert(!prev.contains(last));
            assert forall|i: int, j: int| 0 <= i < j < cur.len() implies cur[i] != cur[j] by {
                if j < prev.len() {
                    assert(cur[i] == prev[i] && cur[j] == prev[j]);
                } else {
                    assert(j == prev.len());
                    assert(cur[j] == last);
                    assert(cur[i] == prev[i]);
                    if prev[i] == last {
                        assert(prev.contains(last));
                    }
                }
            }
        }
    }
}

/// The order two locations take in a merge: on one contig, by position; on
/// two contigs the dictionary both lists, by the contigs' dictionary order;
/// undefined when either contig is missing from the dictionary.
pub open spec fn spec_compare(
    names: Seq<Seq<char>>,
    an: Seq<char>,
    ap: u32,
    bn: Seq<char>,
    bp: u32,
) -> Option<Ordering> {
    if an == bn {
        Some(ord_of(ap as int, bp as int))
    } else if names.contains(an) && names.contains(bn) {
        Some(ord_of(name_index(names, an), name_index(names, bn)))
    } else {
        None
    }
}

/// The order of two integers.
pub open spec fn ord_of(a: int, b: int) -> Ordering {
    if a < b {
        Ordering::Less
    } else if a == b {
        Ordering::Equal
    } else {
        Ordering::Greater
    }
}

/// The position of a name within a duplicate-free name list.
pub open spec fn name_index(names: Seq<Seq<char>>, n: Seq<char>) -> int {
    choose|i: int| 0 <= i < names.len() && names[i] == n
}

/// The ordered set of contig names that every dataset of one merge shares:
/// a filter on sites and a total order on the locations that pass it.
pub struct SequenceDict {
    pub set: indexmap::IndexSet<String>,
}

impl SequenceDict {
    /// The dictionary's names, in dictionary order.
    pub open spec fn names(&self) -> Seq<Seq<char>> {
        iset_names(self.set)
    }

    /// The dictionary lists each name once.
    pub open spec fn wf(&self) -> bool {
        forall|i: int, j: int|
            0 <= i < j < self.names().len() ==> self.names()[i] != self.names()[j]
    }

    /// Orders two locations: on one contig by position, across contigs by
    /// dictionary order, and not at all when a contig is missing from the
    /// dictionary.
    pub fn compare<T: Position>(&self, first: &T, second: &T) -> (r: Option<Ordering>)
        requires
            self.wf(),
        ensures
            r == spec_compare(
                self.names(),
                first.spec_name(),
                first.spec_position(),
                second.spec_name(),
                second.spec_position(),
            ),
    {
        let first_name = first.name();
        let second_name = second.name();
        if str_eq(first_name, second_name) {
            Some(cmp_u32(first.position(), second.position()))
        } else {
            let first_genome_position = match iset_get_index_of(&self.set, first_name) {
                Some(i) => i,
                None => {
                    return None;
                },
            };
            let second_genome_position = match iset_get_index_of(&self.set, second_name) {
                Some(i) => i,
                None => {
                    return None;
                },
            };
            proof {
                lemma_unique_index(self.names(), first.spec_name(), first_genome_position as int);
                lemma_unique_index(self.names(), second.spec_name(), second_genome_position as int);
            }
            Some(cmp_usize(first_genome_position, second_genome_position))
        }
    }

    /// True when the dictionary lists the contig name.
    pub fn contains(&self, name: &str) -> (r: bool)
        ensures
            r == self.names().contains(name@),
    {
        iset_contains(&self.set, name)
    }

    /// Builds the dictionary of a merge from the open datasets: the names
    /// of the first dataset's index, in order and without duplicates,
    /// keeping exactly those that every other dataset's index also lists.
    #[verifier::loop_isolation(false)]
    pub fn from_saf_readers(readers: &Vec<Reader>) -> (r: Self)
        ensures
            r.names() == spec_dict(
                readers@.map_values(|rd: Reader| index_names(rd.index)),
            ),
            r.wf(),
    {
        let ghost namess = readers@.map_values(|rd: Reader| index_names(rd.index));
        let mut set = iset_new();
        if readers.len() == 0 {
            let r = Self { set };
            return r;
        }
        // Membership sets for every dataset after the first.
        let mut others: Vec<indexmap::IndexSet<String>> = Vec::new();
        let mut k: usize = 1;
        while k < readers.len()
            invariant
                1 <= k <= readers@.len(),
                others@.len() == k - 1,
                forall|m: int, n: Seq<char>|
                    0 <= m < others@.len() ==> (#[trigger] iset_names(others@[m]).contains(n)
                        <==> namess[m + 1].contains(n)),
            decreases readers@.len() - k,
        {
            let entries = readers[k].index.entries();
            let mut s = iset_new();
            let mut j: usize = 0;
            while j < entries.len()
                invariant
                    j <= entries@.len(),
                    entries@ == readers@[k as int].index.entries@,
                    forall|n: Seq<char>|
                        iset_names(s).contains(n) <==> namess[k as int].take(
                            j as int,
                        ).contains(n),
                decreases entries@.len() - j,
            {
                let ghost pre = iset_names(s);
                iset_insert(&mut s, entries[j].name.clone());
                proof {
                    let taken = namess[k as int].take(j as int);
                    let name = entries@[j as int].name@;
                    assert(namess[k as int][j as int] == name);
                    assert forall|n: Seq<char>|
                        iset_names(s).contains(n) <==> namess[k as int].take(
                            j as int + 1,
                        ).contains(n) by {
                        lemma_contains_push(pre, name, n);
                        lemma_contains_take_succ(namess[k as int], j as int, n);
                    }
                }
                j += 1;
            }
            proof {
                assert(namess[k as int].take(namess[k as int].len() as int) =~= namess[k as int]);
            }
            others.push(s);
            k += 1;
        }
        // Walk the first dataset's names in order, keeping the shared ones;
        // insertion itself collapses duplicates.
        let first_entries = readers[0].index.entries();
        let ghost first = namess[0];
        let mut j: usize = 0;
        while j < first_entries.len()
            invariant
                j <= first_entries@.len(),
                first_entries@ == readers@[0].index.entries@,
                others@.len() == readers@.len() - 1,
                forall|m: int, n: Seq<char>|
                    0 <= m < others@.len() ==> (#[trigger] iset_names(others@[m]).contains(n)
                        <==> namess[m + 1].contains(n)),
                iset_names(set) == sd_build(first.take(j as int), namess),
            decreases first_entries@.len() - j,
        {
            let name = &first_entries[j].name;
            let ghost name_spec = name@;
            let mut shared = true;
            let mut m: usize = 0;
            while m < others.len()
                invariant
                    m <= others@.len(),
                    shared ==> (forall|mm: int|
                        0 <= mm < m ==> (#[trigger] namess[mm + 1]).contains(name_spec)),
                    !shared ==> !in_all_rest(name_spec, namess),
                decreases others@.len() - m,
            {
                if !iset_contains(&others[m], name.as_str()) {
                    proof {
                        assert(!namess[m as int + 1].contains(name_spec));
                        assert(!in_all_rest(name_spec, namess));
                    }
                    shared = false;
                    m = others.len();
                } else {
                    proof {
                        assert(namess[m as int + 1].contains(name_spec));
                    }
                    m += 1;
                }
            }
            proof {
                if shared {
                    assert(in_all_rest(name_spec, namess)) by {
                        assert forall|kk: int| 1 <= kk < namess.len() implies (#[trigger] namess[kk]).contains(
                            name_spec,
                        ) by {
                            assert(namess[(kk - 1) + 1].contains(name_spec));
                        }
                    }
                }
                assert(first.take(j as int + 1).drop_last() =~= first.take(j as int));
                assert(first.take(j as int + 1).last() == name_spec);
            }
            if shared {
                iset_insert(&mut set, name.clone());
            }
            j += 1;
        }
        proof {
            assert(first.take(first.len() as int) =~= first);
            lemma_dict_nodup(first, namess);
        }
        let r = Self { set };
        r
    }
}

/// Membership in a sequence extended by one element.
proof fn lemma_contains_push(s: Seq<Seq<char>>, v: Seq<char>, n: Seq<char>)
    ensures
        s.push(v).contains(n) <==> (s.contains(n) || n == v),
{
    if s.contains(n) {
        let i = choose|i: int| 0 <= i < s.len() && s[i] == n;
        assert(s.push(v)[i] == n);
    }
    if n == v {
        assert(s.push(v)[s.len() as int] == n);
    }
    if s.push(v).contains(n) {
        let i = choose|i: int| 0 <= i < s.push(v).len() && s.push(v)[i] == n;
        if i < s.len() {
            assert(s[i] == n);
        }
    }
}

/// Membership in a prefix extended by one element.
proof fn lemma_contains_take_succ(s: Seq<Seq<char>>, j: int, n: Seq<char>)
    requires
        0 <= j < s.len(),
    ensures
        s.take(j + 1).contains(n) <==> (s.take(j).contains(n) || n == s[j]),
{
    assert(s.take(j + 1) =~= s.take(j).push(s[j]));
    lemma_contains_push(s.take(j), s[j], n);
}

/// In a duplicate-free name list, a name's position is unique.
proof fn lemma_unique_index(names: Seq<Seq<char>>, n: Seq<char>, i: int)
    requires
        forall|a: int, b: int| 0 <= a < b < names.len() ==> names[a] != names[b],
        0 <= i < names.len(),
        names[i] == n,
    ensures
        name_index(names, n) == i,
{
    let j = name_index(names, n);
    assert(0 <= j < names.len() && names[j] == n) by {
        assert(0 <= i < names.len() && names[i] == n);
    }
}

/// Orders two 32-bit numbers.
fn cmp_u32(a: u32, b: u32) -> (r: Ordering)
    ensures
        r == ord_of(a as int, b as int),
{
    if a < b {
        Ordering::Less
    } else if a == b {
        Ordering::Equal
    } else {
        Ordering::Greater
    }
}

/// Orders two machine-size numbers.
fn cmp_usize(a: usize, b: usize) -> (r: Ordering)
    ensures
        r == ord_of(a as int, b as int),
{
    if a < b {
        Ordering::Less
    } else if a == b {
        Ordering::Equal
    } else {
        Ordering::Greater
    }
}

} // verus!
