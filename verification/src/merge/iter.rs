use core::cmp::Ordering;
use vstd::prelude::*;
use vstd::slice::slice_to_vec;

use crate::error::SafError;
use crate::merge::sequence_dict::{index_names, spec_compare, spec_dict, SequenceDict};
use crate::merge::Position;
use crate::saf::read::iter::Sites;
use crate::saf::read::BinaryRead;
use crate::saf::read::Reader;
use crate::saf::site::Site;

verus! {

/// The index of the first remaining site whose contig the dictionary
/// lists; the sequence length when there is none.
pub open spec fn first_dict_site(names: Seq<Seq<char>>, dict: Seq<Seq<char>>) -> int
    decreases names.len(),
{
    if names.len() == 0 {
        0
    } else if dict.contains(names.first()) {
        0
    } else {
        1 + first_dict_site(names.drop_first(), dict)
    }
}

/// True when the cursor still holds a site on a dictionary contig.
pub open spec fn has_head(c: Forward, dict: Seq<Seq<char>>) -> bool {
    first_dict_site(c.0.rem_names(), dict) < c.0.rem_names().len()
}

/// The location of the cursor's first dictionary site.
pub open spec fn head_loc(c: Forward, dict: Seq<Seq<char>>) -> (Seq<char>, u32) {
    let f = first_dict_site(c.0.rem_names(), dict);
    (c.0.rem_names()[f], c.0.rem_pos()[f])
}

/// The value chunk of the cursor's first dictionary site.
pub open spec fn head_vals(c: Forward, dict: Seq<Seq<char>>) -> Seq<u32> {
    let f = first_dict_site(c.0.rem_names(), dict);
    c.0.rem_vals().subrange(c.0.k() * f, c.0.k() * f + c.0.k())
}

/// The cursor state after the site at index `f` was yielded: that site and
/// everything before it consumed, the rest untouched.
pub open spec fn advanced_past(pre: Forward, post: Forward, f: int) -> bool {
    &&& post.0.rem_names() == pre.0.rem_names().skip(f + 1)
    &&& post.0.rem_pos() == pre.0.rem_pos().skip(f + 1)
    &&& post.0.rem_vals() == pre.0.rem_vals().skip(pre.0.k() * (f + 1))
    &&& post.0.k() == pre.0.k()
    &&& post.0.well_formed()
    &&& !post.0.done
}

/// The cursor state after its first dictionary site was yielded.
pub open spec fn advanced_past_head(pre: Forward, post: Forward, dict: Seq<Seq<char>>) -> bool {
    advanced_past(pre, post, first_dict_site(pre.0.rem_names(), dict))
}

/// True when a site has reached the target: the dictionary orders it at or
/// past the target location. A site the dictionary cannot order against the
/// target has not.
pub open spec fn reached(
    dict: Seq<Seq<char>>,
    n: Seq<char>,
    p: u32,
    tn: Seq<char>,
    tp: u32,
) -> bool {
    spec_compare(dict, n, p, tn, tp) matches Some(o) && o != Ordering::Less
}

/// The index of the first remaining site at or past the target location in
/// dictionary order; the sequence length when there is none. Sites that lie
/// strictly before the target, and sites whose contig the dictionary cannot
/// order against it, are passed over alike.
pub open spec fn first_at_or_past(
    names: Seq<Seq<char>>,
    poss: Seq<u32>,
    dict: Seq<Seq<char>>,
    tn: Seq<char>,
    tp: u32,
) -> int
    decreases names.len(),
{
    if names.len() == 0 {
        0
    } else if reached(dict, names.first(), poss.first(), tn, tp) {
        0
    } else {
        1 + first_at_or_past(names.drop_first(), poss.drop_first(), dict, tn, tp)
    }
}

/// The scan index stays within the sequence.
pub proof fn lemma_first_at_or_past_bounds(
    names: Seq<Seq<char>>,
    poss: Seq<u32>,
    dict: Seq<Seq<char>>,
    tn: Seq<char>,
    tp: u32,
)
    requires
        poss.len() == names.len(),
    ensures
        0 <= first_at_or_past(names, poss, dict, tn, tp) <= names.len(),
        first_at_or_past(names, poss, dict, tn, tp) < names.len() ==> reached(
            dict,
            names[first_at_or_past(names, poss, dict, tn, tp)],
            poss[first_at_or_past(names, poss, dict, tn, tp)],
            tn,
            tp,
        ),
        forall|j: int|
            0 <= j < first_at_or_past(names, poss, dict, tn, tp) ==> !reached(
                dict,
                #[trigger] names[j],
                poss[j],
                tn,
                tp,
            ),
    decreases names.len(),
{
    if names.len() > 0 && !reached(dict, names.first(), poss.first(), tn, tp) {
        let rn = names.drop_first();
        let rp = poss.drop_first();
        lemma_first_at_or_past_bounds(rn, rp, dict, tn, tp);
        let f = first_at_or_past(names, poss, dict, tn, tp);
        if f < names.len() {
            assert(rn[f - 1] == names[f] && rp[f - 1] == poss[f]);
        }
        assert forall|j: int| 0 <= j < f implies !reached(
            dict,
            #[trigger] names[j],
            poss[j],
            tn,
            tp,
        ) by {
            if j > 0 {
                assert(rn[j - 1] == names[j] && rp[j - 1] == poss[j]);
            }
        }
    }
}

/// A scan that passed over `c` sites short of the target and stopped has
/// found the first site at or past it.
pub proof fn lemma_first_at_or_past_is(
    names: Seq<Seq<char>>,
    poss: Seq<u32>,
    dict: Seq<Seq<char>>,
    tn: Seq<char>,
    tp: u32,
    c: int,
)
    requires
        poss.len() == names.len(),
        0 <= c <= names.len(),
        forall|j: int| 0 <= j < c ==> !reached(dict, #[trigger] names[j], poss[j], tn, tp),
        c < names.len() ==> reached(dict, names[c], poss[c], tn, tp),
    ensures
        first_at_or_past(names, poss, dict, tn, tp) == c,
    decreases names.len(),
{
    if names.len() == 0 {
    } else if reached(dict, names.first(), poss.first(), tn, tp) {
        assert(c == 0) by {
            if c > 0 {
                assert(!reached(dict, names[0], poss[0], tn, tp));
            }
        }
    } else {
        let rn = names.drop_first();
        let rp = poss.drop_first();
        assert(c >= 1) by {
            if c == 0 {
                assert(reached(dict, names[0], poss[0], tn, tp));
            }
        }
        assert forall|j: int|
            0 <= j < c - 1 implies !reached(dict, #[trigger] rn[j], rp[j], tn, tp) by {
            assert(rn[j] == names[j + 1] && rp[j] == poss[j + 1]);
        }
        if c - 1 < rn.len() {
            assert(rn[c - 1] == names[c] && rp[c - 1] == poss[c]);
        }
        lemma_first_at_or_past_is(rn, rp, dict, tn, tp, c - 1);
    }
}

/// Everything before the first dictionary site is off the dictionary, and
/// that site itself is on it.
pub proof fn lemma_first_dict_site(names: Seq<Seq<char>>, dict: Seq<Seq<char>>)
    ensures
        0 <= first_dict_site(names, dict) <= names.len(),
        forall|j: int|
            0 <= j < first_dict_site(names, dict) ==> !dict.contains(#[trigger] names[j]),
        first_dict_site(names, dict) < names.len() ==> dict.contains(
            names[first_dict_site(names, dict)],
        ),
    decreases names.len(),
{
    if names.len() > 0 && !dict.contains(names.first()) {
        let rest = names.drop_first();
        lemma_first_dict_site(rest, dict);
        let f = first_dict_site(names, dict);
        assert forall|j: int| 0 <= j < f implies !dict.contains(#[trigger] names[j]) by {
            if j > 0 {
                assert(names[j] == rest[j - 1]);
            }
        }
        if f < names.len() {
            assert(names[f] == rest[f - 1]);
        }
    }
}

/// A scan that skipped `c` off-dictionary names and stopped has found the
/// first dictionary site.
pub proof fn lemma_first_dict_site_is(names: Seq<Seq<char>>, dict: Seq<Seq<char>>, c: int)
    requires
        0 <= c <= names.len(),
        forall|j: int| 0 <= j < c ==> !dict.contains(#[trigger] names[j]),
        c < names.len() ==> dict.contains(names[c]),
    ensures
        first_dict_site(names, dict) == c,
    decreases names.len(),
{
    if names.len() == 0 {
    } else if dict.contains(names.first()) {
        assert(c == 0) by {
            if c > 0 {
                assert(!dict.contains(names[0]));
            }
        }
    } else {
        let rest = names.drop_first();
        assert(c >= 1) by {
            if c == 0 {
                assert(dict.contains(names[0]));
            }
        }
        assert forall|j: int| 0 <= j < c - 1 implies !dict.contains(#[trigger] rest[j]) by {
            assert(rest[j] == names[j + 1]);
        }
        if c - 1 < rest.len() {
            assert(rest[c - 1] == names[c]);
        }
        lemma_first_dict_site_is(rest, dict, c - 1);
    }
}

/// The error a failed step carries.
pub open spec fn e_of<T>(x: Result<T, SafError>) -> SafError
    recommends
        x is Err,
{
    x->Err_0
}

/// A well-formed sequencer state either ends cleanly or can deliver a site,
/// and delivering one keeps it well-formed.
pub proof fn lemma_sites_wf_steps(s: Sites)
    requires
        s.inv(),
        s.well_formed(),
    ensures
        s.rem_names().len() > 0 ==> s.can_step(),
        s.rem_names().len() == 0 ==> s.at_end(),
        s.rem_vals().len() == s.k() * (s.rem_names().len() - 1) + s.k(),
{
    let k = s.k();
    let n = s.rem_names().len() as int;
    if n > 0 {
        assert(s.rem_vals().len() >= k && k * n == k * (n - 1) + k) by (nonlinear_arith)
            requires
                s.rem_vals().len() == k * n,
                k > 0,
                n >= 1,
        ;
    } else {
        assert(k * n == 0) by (nonlinear_arith)
            requires
                n == 0,
        ;
    }
}

/// One dataset's site sequence, advanced past the sites a merge discards.
pub struct Forward(pub Sites);

impl Forward {
    /// Well-formedness of the cursor's state.
    pub open spec fn inv(&self) -> bool {
        self.0.inv()
    }

    /// How many sites the cursor can still yield.
    pub open spec fn rem(&self) -> int {
        self.0.rem_names().len() as int
    }

    /// Advances to the cursor's first remaining site whose contig the
    /// dictionary lists, discarding exactly the off-dictionary sites before
    /// it; on a well-formed dataset it returns that site, or ends exactly
    /// when no such site remains.
    #[verifier::loop_isolation(false)]
    pub fn forward_to_dict(&mut self, dict: &SequenceDict) -> (r: Option<Result<Site, SafError>>)
        requires
            old(self).inv(),
        ensures
            final(self).inv(),
            r matches Some(x) ==> x matches Ok(site) ==> (dict.names().contains(site.name@)
                && final(self).rem() < old(self).rem() && !final(self).0.done),
            r matches Some(x) ==> x is Err ==> (final(self).0.done && (e_of(x)
                == SafError::Truncated || e_of(x) == SafError::IncompatibleLengths)),
            old(self).0.done || old(self).0.at_end() ==> r is None,
            old(self).0.well_formed() ==> (r is None || (r matches Some(x) && x is Ok)),
            old(self).0.well_formed() && has_head(*old(self), dict.names()) ==> (r matches Some(x)
                && x matches Ok(site)
                && (site.name@, site.position) == head_loc(*old(self), dict.names())
                && site.values@ == head_vals(*old(self), dict.names())
                && advanced_past_head(*old(self), *final(self), dict.names())),
            old(self).0.well_formed() && !has_head(*old(self), dict.names()) ==> (r is None
                && final(self).0.rem_names().len() == 0),
    {
        let ghost names0 = old(self).0.rem_names();
        let ghost pos0 = old(self).0.rem_pos();
        let ghost vals0 = old(self).0.rem_vals();
        let ghost k = old(self).0.k();
        let ghost mut c: int = 0;
        loop
            invariant
                self.0.inv(),
                self.0.rem_names().len() <= old(self).0.rem_names().len(),
                old(self).0.done || old(self).0.at_end() ==> *self == *old(self),
                old(self).0.well_formed() ==> {
                    &&& 0 <= c <= names0.len()
                    &&& self.0.rem_names() == names0.skip(c)
                    &&& self.0.rem_pos() == pos0.skip(c)
                    &&& self.0.rem_vals() == vals0.skip(k * c)
                    &&& self.0.k() == k
                    &&& self.0.well_formed()
                    &&& forall|j: int|
                        0 <= j < c ==> !dict.names().contains(#[trigger] names0[j])
                },
            decreases self.0.rem_names().len(),
        {
            let ghost pre = *self;
            match self.0.next() {
                None => {
                    proof {
                        if old(self).0.well_formed() {
                            assert(c == names0.len());
                            lemma_first_dict_site_is(names0, dict.names(), c);
                        }
                    }
                    return None;
                },
                Some(Err(e)) => {
                    proof {
                        if pre.0.well_formed() {
                            lemma_sites_wf_steps(pre.0);
                        }
                    }
                    return Some(Err(e));
                },
                Some(Ok(site)) => {
                    proof {
                        assert(pre.0.can_step());
                        if old(self).0.well_formed() {
                            assert(site.name@ == names0[c] && site.position == pos0[c]);
                            assert(0 <= k * c && k * c + k <= vals0.len()) by (nonlinear_arith)
                                requires
                                    k > 0,
                                    0 <= c,
                                    c + 1 <= names0.len(),
                                    vals0.len() == k * names0.len(),
                            ;
                            assert(site.values@ =~= vals0.subrange(k * c, k * c + k));
                            assert(self.0.rem_names() =~= names0.skip(c + 1));
                            assert(self.0.rem_pos() =~= pos0.skip(c + 1));
                            assert(k * (c + 1) == k * c + k) by (nonlinear_arith);
                            assert(self.0.rem_vals() =~= vals0.skip(k * (c + 1)));
                            lemma_sites_wf_steps(pre.0);
                        }
                    }
                    if dict.contains(site.name()) {
                        proof {
                            if old(self).0.well_formed() {
                                lemma_first_dict_site_is(names0, dict.names(), c);
                            }
                        }
                        return Some(Ok(site));
                    }
                    proof {
                        c = c + 1;
                    }
                },
            }
        }
    }

    /// Advances to the cursor's first remaining site at or past a given
    /// location in dictionary order, discarding every site before it — both
    /// the strictly earlier ones and those whose contig the dictionary does
    /// not list; on a well-formed dataset it returns that site, or ends
    /// exactly when no remaining site reaches the target.
    #[verifier::loop_isolation(false)]
    pub fn forward_to_position(&mut self, position: &Site, dict: &SequenceDict) -> (r: Option<
        Result<Site, SafError>,
    >)
        requires
            old(self).inv(),
            dict.wf(),
        ensures
            final(self).inv(),
            r matches Some(x) ==> x matches Ok(site) ==> (final(self).rem() < old(self).rem()
                && (spec_compare(
                dict.names(),
                site.name@,
                site.position,
                position.name@,
                position.position,
            ) matches Some(o)
                && o != Ordering::Less) && !final(self).0.done),
            r matches Some(x) ==> x is Err ==> (final(self).0.done && (e_of(x)
                == SafError::Truncated || e_of(x) == SafError::IncompatibleLengths)),
            old(self).0.well_formed() ==> (r is None || (r matches Some(x) && x is Ok)),
            old(self).0.well_formed() ==> ({
                let names0 = old(self).0.rem_names();
                let pos0 = old(self).0.rem_pos();
                let f = first_at_or_past(
                    names0,
                    pos0,
                    dict.names(),
                    position.name@,
                    position.position,
                );
                &&& (f < names0.len() ==> (r matches Some(x)
                    && x matches Ok(site)
                    && site.name@ == names0[f]
                    && site.position == pos0[f]
                    && site.values@ == old(self).0.rem_vals().subrange(
                        old(self).0.k() * f,
                        old(self).0.k() * f + old(self).0.k(),
                    )
                    && advanced_past(*old(self), *final(self), f)))
                &&& (f == names0.len() ==> (r is None
                    && final(self).0.rem_names().len() == 0))
            }),
    {
        let ghost names0 = old(self).0.rem_names();
        let ghost pos0 = old(self).0.rem_pos();
        let ghost vals0 = old(self).0.rem_vals();
        let ghost k = old(self).0.k();
        let ghost tn = position.name@;
        let ghost tp = position.position;
        let ghost mut c: int = 0;
        loop
            invariant
                self.0.inv(),
                dict.wf(),
                self.0.rem_names().len() <= old(self).0.rem_names().len(),
                old(self).0.well_formed() ==> {
                    &&& 0 <= c <= names0.len()
                    &&& self.0.rem_names() == names0.skip(c)
                    &&& self.0.rem_pos() == pos0.skip(c)
                    &&& self.0.rem_vals() == vals0.skip(k * c)
                    &&& self.0.k() == k
                    &&& self.0.well_formed()
                    &&& forall|j: int|
                        0 <= j < c ==> !reached(dict.names(), #[trigger] names0[j], pos0[j], tn, tp)
                },
            decreases self.0.rem_names().len(),
        {
            let ghost pre = *self;
            match self.0.next() {
                None => {
                    proof {
                        if old(self).0.well_formed() {
                            assert(c == names0.len());
                            lemma_first_at_or_past_is(names0, pos0, dict.names(), tn, tp, c);
                        }
                    }
                    return None;
                },
                Some(Err(e)) => {
                    proof {
                        if pre.0.well_formed() {
                            lemma_sites_wf_steps(pre.0);
                        }
                    }
                    return Some(Err(e));
                },
                Some(Ok(site)) => {
                    proof {
                        assert(pre.0.can_step());
                        if old(self).0.well_formed() {
                            assert(site.name@ == names0[c] && site.position == pos0[c]);
                            assert(0 <= k * c && k * c + k <= vals0.len()) by (nonlinear_arith)
                                requires
                                    k > 0,
                                    0 <= c,
                                    c + 1 <= names0.len(),
                                    vals0.len() == k * names0.len(),
                            ;
                            assert(site.values@ =~= vals0.subrange(k * c, k * c + k));
                            assert(self.0.rem_names() =~= names0.skip(c + 1));
                            assert(self.0.rem_pos() =~= pos0.skip(c + 1));
                            assert(k * (c + 1) == k * c + k) by (nonlinear_arith);
                            assert(self.0.rem_vals() =~= vals0.skip(k * (c + 1)));
                            lemma_sites_wf_steps(pre.0);
                        }
                    }
                    match dict.compare(&site, position) {
                        Some(Ordering::Equal) => {
                            proof {
                                if old(self).0.well_formed() {
                                    lemma_first_at_or_past_is(
                                        names0,
                                        pos0,
                                        dict.names(),
                                        tn,
                                        tp,
                                        c,
                                    );
                                }
                            }
                            return Some(Ok(site));
                        },
                        Some(Ordering::Greater) => {
                            proof {
                                if old(self).0.well_formed() {
                                    lemma_first_at_or_past_is(
                                        names0,
                                        pos0,
                                        dict.names(),
                                        tn,
                                        tp,
                                        c,
                                    );
                                }
                            }
                            return Some(Ok(site));
                        },
                        Some(Ordering::Less) => {
                            proof {
                                c = c + 1;
                            }
                        },
                        None => {
                            // The site's contig escapes the dictionary: it is
                            // not part of the merge and is discarded like the
                            // strictly earlier sites.
                            proof {
                                c = c + 1;
                            }
                        },
                    }
                },
            }
        }
    }
}

/// The dictionary order is antisymmetric: a location strictly before
/// another lies strictly after it from the other side.
proof fn lemma_compare_flip(
    names: Seq<Seq<char>>,
    an: Seq<char>,
    ap: u32,
    bn: Seq<char>,
    bp: u32,
)
    requires
        forall|x: int, y: int| 0 <= x < y < names.len() ==> names[x] != names[y],
        spec_compare(names, an, ap, bn, bp) == Some(Ordering::Less),
    ensures
        spec_compare(names, bn, bp, an, ap) == Some(Ordering::Greater),
{
    if an != bn {
        lemma_name_index_inj(names, an, bn);
    }
}

/// The dictionary order is transitive through a strictly earlier bound: a
/// location at or before one that lies strictly before a third lies
/// strictly before that third itself.
proof fn lemma_compare_trans_lt(
    names: Seq<Seq<char>>,
    an: Seq<char>,
    ap: u32,
    bn: Seq<char>,
    bp: u32,
    mn: Seq<char>,
    mp: u32,
)
    requires
        forall|x: int, y: int| 0 <= x < y < names.len() ==> names[x] != names[y],
        spec_compare(names, an, ap, bn, bp) matches Some(o) && o != Ordering::Greater,
        spec_compare(names, bn, bp, mn, mp) == Some(Ordering::Less),
    ensures
        spec_compare(names, an, ap, mn, mp) == Some(Ordering::Less),
{
    if an == bn && bn == mn {
    } else if an == bn {
        assert(names.contains(bn) && names.contains(mn));
        lemma_name_index_inj(names, bn, mn);
        if an == mn {
            assert(bn == mn);
        }
    } else if bn == mn {
        assert(names.contains(an) && names.contains(bn));
        lemma_name_index_inj(names, an, bn);
        if an == mn {
        }
    } else {
        assert(names.contains(an) && names.contains(bn) && names.contains(mn));
        lemma_name_index_inj(names, an, bn);
        lemma_name_index_inj(names, bn, mn);
        lemma_name_index_inj(names, an, mn);
    }
}

/// True when the cursor's remaining dictionary-contig sites appear in
/// strictly increasing dictionary order: the sort assumption the merge
/// rests on.
pub open spec fn stream_sorted(c: Forward, dict: Seq<Seq<char>>) -> bool {
    forall|a: int, b: int|
        #![trigger c.0.rem_names()[a], c.0.rem_names()[b]]
        0 <= a < b < c.0.rem_names().len() && dict.contains(c.0.rem_names()[a]) && dict.contains(
            c.0.rem_names()[b],
        ) ==> spec_compare(
            dict,
            c.0.rem_names()[a],
            c.0.rem_pos()[a],
            c.0.rem_names()[b],
            c.0.rem_pos()[b],
        ) == Some(Ordering::Less)
}

/// True when the cursor still holds a site at the location.
pub open spec fn holds_loc(cursor: Forward, n: Seq<char>, p: u32) -> bool {
    exists|c: int|
        0 <= c < cursor.0.rem_names().len() && cursor.0.rem_names()[c] == n
            && cursor.0.rem_pos()[c] == p
}

/// True when every dataset of the merge still holds a site at the location,
/// the location's contig being one the dictionary lists.
pub open spec fn shared_loc(
    cursors: Seq<Forward>,
    dict: Seq<Seq<char>>,
    n: Seq<char>,
    p: u32,
) -> bool {
    &&& dict.contains(n)
    &&& forall|i: int| 0 <= i < cursors.len() ==> #[trigger] holds_loc(cursors[i], n, p)
}

/// A location every dataset still holds means every cursor still holds a
/// dictionary site.
proof fn lemma_shared_has_heads(
    cursors: Seq<Forward>,
    dict: Seq<Seq<char>>,
    nm: Seq<char>,
    pp: u32,
)
    requires
        shared_loc(cursors, dict, nm, pp),
    ensures
        forall|i: int| 0 <= i < cursors.len() ==> has_head(#[trigger] cursors[i], dict),
{
    assert forall|i: int| 0 <= i < cursors.len() implies has_head(#[trigger] cursors[i], dict) by {
        assert(holds_loc(cursors[i], nm, pp));
        let c = choose|c: int|
            0 <= c < cursors[i].0.rem_names().len() && cursors[i].0.rem_names()[c] == nm
                && cursors[i].0.rem_pos()[c] == pp;
        lemma_first_dict_site(cursors[i].0.rem_names(), dict);
        if !has_head(cursors[i], dict) {
            assert(!dict.contains(cursors[i].0.rem_names()[c]));
        }
    }
}

/// True when no location shared by every dataset lies strictly before any
/// current candidate: the merge has passed over nothing it must emit.
pub open spec fn nothing_shared_behind(
    orig: Seq<Forward>,
    dict: Seq<Seq<char>>,
    ps: Seq<Site>,
) -> bool {
    forall|n: Seq<char>, p: u32, i: int|
        #![trigger shared_loc(orig, dict, n, p), ps[i]]
        shared_loc(orig, dict, n, p) && 0 <= i < ps.len() ==> reached(
            dict,
            n,
            p,
            ps[i].name@,
            ps[i].position,
        )
}

/// After an emission, every location an advanced dataset still holds lies
/// strictly after the site it yielded, so successive merge outputs strictly
/// increase in dictionary order and each dataset's emitted sites keep their
/// stream order.
pub proof fn lemma_merge_monotone(
    pre: Forward,
    post: Forward,
    dict: Seq<Seq<char>>,
    site: Site,
    nm: Seq<char>,
    pp: u32,
)
    requires
        pre.0.well_formed(),
        stream_sorted(pre, dict),
        yielded_from(pre, post, site),
        dict.contains(site.name@),
        dict.contains(nm),
        holds_loc(post, nm, pp),
    ensures
        spec_compare(dict, site.name@, site.position, nm, pp) == Some(Ordering::Less),
{
    let c = choose|c: int|
        0 <= c < pre.0.rem_names().len() && site_at(pre, c, site) && advanced_past(pre, post, c);
    assert(0 <= c < pre.0.rem_names().len() && site_at(pre, c, site) && advanced_past(
        pre,
        post,
        c,
    ));
    let d = choose|d: int|
        0 <= d < post.0.rem_names().len() && post.0.rem_names()[d] == nm && post.0.rem_pos()[d]
            == pp;
    assert(0 <= d < post.0.rem_names().len() && post.0.rem_names()[d] == nm && post.0.rem_pos()[d]
        == pp);
    assert(post.0.rem_names() == pre.0.rem_names().skip(c + 1));
    assert(post.0.rem_pos() == pre.0.rem_pos().skip(c + 1));
    assert(pre.0.rem_names().skip(c + 1)[d] == pre.0.rem_names()[(c + 1) + d]);
    assert(pre.0.rem_pos().skip(c + 1)[d] == pre.0.rem_pos()[(c + 1) + d]);
    assert(post.0.rem_names()[d] == pre.0.rem_names()[c + 1 + d] && post.0.rem_pos()[d]
        == pre.0.rem_pos()[c + 1 + d]);
    assert(spec_compare(
        dict,
        pre.0.rem_names()[c],
        pre.0.rem_pos()[c],
        pre.0.rem_names()[c + 1 + d],
        pre.0.rem_pos()[c + 1 + d],
    ) == Some(Ordering::Less));
}

/// The number of sites all cursors together can still yield.
pub open spec fn sum_rem(cursors: Seq<Forward>) -> int
    decreases cursors.len(),
{
    if cursors.len() == 0 {
        0
    } else {
        cursors.first().rem() + sum_rem(cursors.drop_first())
    }
}

proof fn lemma_sum_rem_nonneg(cursors: Seq<Forward>)
    ensures
        sum_rem(cursors) >= 0,
    decreases cursors.len(),
{
    if cursors.len() > 0 {
        lemma_sum_rem_nonneg(cursors.drop_first());
    }
}

proof fn lemma_sum_rem_remove(cursors: Seq<Forward>, i: int)
    requires
        0 <= i < cursors.len(),
    ensures
        sum_rem(cursors.remove(i)) == sum_rem(cursors) - cursors[i].rem(),
    decreases i,
{
    if i == 0 {
        assert(cursors.remove(0) =~= cursors.drop_first());
    } else {
        let rest = cursors.drop_first();
        assert(cursors.remove(i).drop_first() =~= rest.remove(i - 1));
        assert(cursors.remove(i).first() == cursors.first());
        lemma_sum_rem_remove(rest, i - 1);
        assert(rest[i - 1] == cursors[i]);
    }
}

proof fn lemma_sum_rem_insert(cursors: Seq<Forward>, i: int, f: Forward)
    requires
        0 <= i <= cursors.len(),
    ensures
        sum_rem(cursors.insert(i, f)) == sum_rem(cursors) + f.rem(),
    decreases i,
{
    if i == 0 {
        assert(cursors.insert(0, f).drop_first() =~= cursors);
        assert(cursors.insert(0, f).first() == f);
    } else {
        let rest = cursors.drop_first();
        assert(cursors.insert(i, f).drop_first() =~= rest.insert(i - 1, f));
        assert(cursors.insert(i, f).first() == cursors.first());
        lemma_sum_rem_insert(rest, i - 1, f);
    }
}

/// The cursors of every dataset of one merge, advanced together.
pub struct MultiForward(pub Vec<Forward>);

impl MultiForward {
    /// Well-formedness of every cursor.
    pub open spec fn inv(&self) -> bool {
        forall|i: int| 0 <= i < self.0@.len() ==> (#[trigger] self.0@[i]).inv()
    }

    /// Advances every cursor to its first remaining site on a shared contig;
    /// on well-formed datasets it yields one such site per cursor exactly
    /// when every cursor still holds one, and otherwise the merge is over.
    #[verifier::loop_isolation(false)]
    pub fn forward_to_dict(&mut self, dict: &SequenceDict) -> (r: Option<
        Result<Positions, SafError>,
    >)
        requires
            old(self).inv(),
        ensures
            final(self).inv(),
            final(self).0@.len() == old(self).0@.len(),
            r matches Some(x) ==> x is Err ==> (e_of(x) == SafError::Truncated || e_of(x)
                == SafError::IncompatibleLengths),
            r matches Some(x) ==> x matches Ok(ps) ==> (ps.0@.len() == old(self).0@.len() && (
            forall|i: int|
                0 <= i < ps.0@.len() ==> dict.names().contains(
                    (#[trigger] ps.0@[i]).name@,
                )) && (old(self).0@.len() > 0 ==> sum_rem(final(self).0@) < sum_rem(old(self).0@))
                && (forall|i: int|
                0 <= i < final(self).0@.len() ==> !(#[trigger] final(self).0@[i]).0.done)),
            (forall|i: int| 0 <= i < old(self).0@.len() ==> (#[trigger] old(
                self,
            ).0@[i]).0.well_formed()) && (exists|i: int|
                0 <= i < old(self).0@.len() && (#[trigger] old(self).0@[i]).0.rem_names().len()
                    == 0) ==> r is None,
            (forall|i: int| 0 <= i < old(self).0@.len() ==> (#[trigger] old(
                self,
            ).0@[i]).0.well_formed()) ==> ({
                &&& ((forall|i: int|
                    0 <= i < old(self).0@.len() ==> has_head(
                        #[trigger] old(self).0@[i],
                        dict.names(),
                    )) ==> (r matches Some(x)
                    && x matches Ok(ps)
                    && (forall|i: int|
                        0 <= i < old(self).0@.len() ==> (((#[trigger] ps.0@[i]).name@,
                        ps.0@[i].position) == head_loc(old(self).0@[i], dict.names())
                            && ps.0@[i].values@ == head_vals(old(self).0@[i], dict.names())
                            && advanced_past_head(
                            old(self).0@[i],
                            final(self).0@[i],
                            dict.names(),
                        )))))
                &&& ((exists|i: int|
                    0 <= i < old(self).0@.len() && !has_head(
                        #[trigger] old(self).0@[i],
                        dict.names(),
                    )) ==> r is None)
            }),
    {
        let n = self.0.len();
        let mut sites: Vec<Site> = Vec::new();
        let mut i: usize = 0;
        while i < n
            invariant
                self.0@.len() == n,
                sites@.len() == i,
                i <= n,
                self.inv(),
                forall|j: int| i <= j < n ==> self.0@[j] == old(self).0@[j],
                forall|j: int|
                    0 <= j < i ==> (#[trigger] self.0@[j]).rem() < old(self).0@[j].rem(),
                forall|j: int| 0 <= j < i ==> !(#[trigger] self.0@[j]).0.done,
                forall|j: int|
                    0 <= j < i ==> dict.names().contains((#[trigger] sites@[j]).name@),
                (forall|j: int| 0 <= j < n ==> (#[trigger] old(self).0@[j]).0.well_formed())
                    ==> (forall|j: int|
                    0 <= j < i ==> (#[trigger] old(self).0@[j]).0.rem_names().len() > 0),
                (forall|j: int| 0 <= j < n ==> (#[trigger] old(self).0@[j]).0.well_formed())
                    ==> (forall|j: int|
                    0 <= j < i ==> (has_head(#[trigger] old(self).0@[j], dict.names())
                        && ((sites@[j].name@, sites@[j].position) == head_loc(
                        old(self).0@[j],
                        dict.names(),
                    )) && sites@[j].values@ == head_vals(old(self).0@[j], dict.names())
                        && advanced_past_head(old(self).0@[j], self.0@[j], dict.names()))),
            decreases n - i,
        {
            let ghost cursors_before = self.0@;
            let mut f = self.0.remove(i);
            let res = f.forward_to_dict(dict);
            self.0.insert(i, f);
            proof {
                assert(self.0@ =~= cursors_before.update(i as int, f));
            }
            match res {
                None => {
                    proof {
                        if forall|j: int|
                            0 <= j < n ==> (#[trigger] old(self).0@[j]).0.well_formed() {
                            assert(!has_head(old(self).0@[i as int], dict.names()));
                        }
                    }
                    return None;
                },
                Some(Err(e)) => {
                    return Some(Err(e));
                },
                Some(Ok(site)) => {
                    sites.push(site);
                    i += 1;
                },
            }
        }
        proof {
            if n > 0 {
                lemma_sum_rem_pointwise_lt(self.0@, old(self).0@);
            }
        }
        Some(Ok(Positions(sites)))
    }
}

/// A cursor list whose every member can yield strictly fewer sites has a
/// strictly smaller total, provided it has any member at all.
proof fn lemma_sum_rem_pointwise_lt(a: Seq<Forward>, b: Seq<Forward>)
    requires
        a.len() == b.len(),
        forall|i: int| 0 <= i < a.len() ==> (#[trigger] a[i]).rem() < b[i].rem(),
        a.len() > 0,
    ensures
        sum_rem(a) < sum_rem(b),
    decreases a.len(),
{
    if a.len() == 1 {
        assert(sum_rem(a.drop_first()) == 0);
        assert(sum_rem(b.drop_first()) == 0);
    } else {
        assert(forall|i: int|
            0 <= i < a.drop_first().len() ==> (#[trigger] a.drop_first()[i]).rem() < b.drop_first()[i].rem());
        lemma_sum_rem_pointwise_lt(a.drop_first(), b.drop_first());
    }
}

/// The candidate sites of one merge step, one per dataset.
pub struct Positions(pub Vec<Site>);

impl Positions {
    /// True when every candidate lies at the same location.
    #[verifier::loop_isolation(false)]
    pub fn all_equal(&self) -> (r: bool)
        requires
            self.0@.len() >= 1,
        ensures
            r == (forall|i: int|
                0 <= i < self.0@.len() ==> ((#[trigger] self.0@[i]).name@ == self.0@[0].name@
                    && self.0@[i].position == self.0@[0].position)),
    {
        let first = &self.0[0];
        let mut i: usize = 1;
        while i < self.0.len()
            invariant
                1 <= i <= self.0@.len(),
                forall|j: int|
                    0 <= j < i ==> ((#[trigger] self.0@[j]).name@ == self.0@[0].name@
                        && self.0@[j].position == self.0@[0].position),
            decreases self.0@.len() - i,
        {
            if !self.0[i].same_location(first) {
                assert(self.0@[i as int].name@ != self.0@[0].name@ || self.0@[i as int].position
                    != self.0@[0].position);
                return false;
            }
            i += 1;
        }
        true
    }

    /// The index of a candidate no other candidate lies after in dictionary
    /// order; none when a candidate's contig escapes the dictionary.
    #[verifier::loop_isolation(false)]
    pub fn argmax(&self, dict: &SequenceDict) -> (r: Option<usize>)
        requires
            self.0@.len() >= 1,
            dict.wf(),
        ensures
            r matches Some(am) ==> (am < self.0@.len() && (forall|j: int|
                0 <= j < self.0@.len() ==> (spec_compare(
                    dict.names(),
                    (#[trigger] self.0@[j]).name@,
                    self.0@[j].position,
                    self.0@[am as int].name@,
                    self.0@[am as int].position,
                ) matches Some(o)
                    && o != Ordering::Greater))),
            (forall|i: int|
                0 <= i < self.0@.len() ==> dict.names().contains(
                    (#[trigger] self.0@[i]).name@,
                )) ==> r is Some,
    {
        let mut argmax: usize = 0;
        let mut i: usize = 1;
        while i < self.0.len()
            invariant
                1 <= i <= self.0@.len(),
                argmax < i,
                forall|j: int|
                    0 <= j < i ==> (spec_compare(
                        dict.names(),
                        (#[trigger] self.0@[j]).name@,
                        self.0@[j].position,
                        self.0@[argmax as int].name@,
                        self.0@[argmax as int].position,
                    ) matches Some(o)
                        && o != Ordering::Greater),
            decreases self.0@.len() - i,
        {
            let ghost old_am = argmax as int;
            match dict.compare(&self.0[i], &self.0[argmax]) {
                Some(Ordering::Greater) => {
                    proof {
                        assert forall|j: int|
                            0 <= j < i + 1 implies (spec_compare(
                            dict.names(),
                            (#[trigger] self.0@[j]).name@,
                            self.0@[j].position,
                            self.0@[i as int].name@,
                            self.0@[i as int].position,
                        ) matches Some(o)
                            && o != Ordering::Greater) by {
                            if j < i {
                                lemma_compare_step(
                                    dict.names(),
                                    self.0@[j].name@,
                                    self.0@[j].position,
                                    self.0@[old_am].name@,
                                    self.0@[old_am].position,
                                    self.0@[i as int].name@,
                                    self.0@[i as int].position,
                                );
                            } else {
                                lemma_compare_self_le(
                                    dict.names(),
                                    self.0@[i as int].name@,
                                    self.0@[i as int].position,
                                );
                            }
                        }
                    }
                    argmax = i;
                },
                Some(Ordering::Equal) => {},
                Some(Ordering::Less) => {},
                None => {
                    proof {
                        assert(!(dict.names().contains(self.0@[i as int].name@)
                            && dict.names().contains(self.0@[argmax as int].name@))
                            || self.0@[i as int].name@ == self.0@[argmax as int].name@);
                    }
                    return None;
                },
            }
            i += 1;
        }
        Some(argmax)
    }
}

/// A location never lies after itself.
proof fn lemma_compare_self_le(names: Seq<Seq<char>>, n: Seq<char>, p: u32)
    ensures
        spec_compare(names, n, p, n, p) matches Some(o) && o != Ordering::Greater,
{
}

/// Transitivity of the dictionary order through a displaced maximum: what
/// did not lie after the old maximum does not lie after a location the old
/// maximum lies strictly before.
proof fn lemma_compare_step(
    names: Seq<Seq<char>>,
    an: Seq<char>,
    ap: u32,
    bn: Seq<char>,
    bp: u32,
    cn: Seq<char>,
    cp: u32,
)
    requires
        forall|x: int, y: int| 0 <= x < y < names.len() ==> names[x] != names[y],
        spec_compare(names, an, ap, bn, bp) matches Some(o1) && o1 != Ordering::Greater,
        spec_compare(names, cn, cp, bn, bp) == Some(Ordering::Greater),
    ensures
        spec_compare(names, an, ap, cn, cp) matches Some(o) && o != Ordering::Greater,
{
    if an == bn && cn == bn {
    } else if an == bn {
        // c and b differ, both in the dictionary.
        assert(names.contains(cn) && names.contains(bn));
        lemma_name_index_inj(names, cn, bn);
        if an == cn {
            assert(cn == bn);
        }
    } else if cn == bn {
        assert(names.contains(an) && names.contains(bn));
        lemma_name_index_inj(names, an, bn);
        if an == cn {
        }
    } else {
        assert(names.contains(an) && names.contains(bn));
        assert(names.contains(cn));
        lemma_name_index_inj(names, an, bn);
        lemma_name_index_inj(names, cn, bn);
        lemma_name_index_inj(names, an, cn);
    }
}

/// In a duplicate-free name list, distinct contained names take distinct
/// positions, and equal positions mean equal names.
proof fn lemma_name_index_inj(names: Seq<Seq<char>>, a: Seq<char>, b: Seq<char>)
    requires
        forall|x: int, y: int| 0 <= x < y < names.len() ==> names[x] != names[y],
        names.contains(a),
        names.contains(b),
    ensures
        0 <= crate::merge::sequence_dict::name_index(names, a) < names.len(),
        names[crate::merge::sequence_dict::name_index(names, a)] == a,
        0 <= crate::merge::sequence_dict::name_index(names, b) < names.len(),
        names[crate::merge::sequence_dict::name_index(names, b)] == b,
        (crate::merge::sequence_dict::name_index(names, a)
            == crate::merge::sequence_dict::name_index(names, b)) == (a == b),
{
    let ia = choose|i: int| 0 <= i < names.len() && names[i] == a;
    let ib = choose|i: int| 0 <= i < names.len() && names[i] == b;
    assert(0 <= ia < names.len() && names[ia] == a);
    assert(0 <= ib < names.len() && names[ib] == b);
}


/// True when two sites lie at one location.
pub open spec fn same_loc(a: Site, b: Site) -> bool {
    a.name@ == b.name@ && a.position == b.position
}

/// True when `site` is the site a cursor holds at stream index `c`: its
/// name, position and value chunk all taken from that index.
pub open spec fn site_at(cur: Forward, c: int, site: Site) -> bool {
    &&& site.name@ == cur.0.rem_names()[c]
    &&& site.position == cur.0.rem_pos()[c]
    &&& site.values@ == cur.0.rem_vals().subrange(cur.0.k() * c, cur.0.k() * c + cur.0.k())
}

/// True when `site` is one of the sites the cursor still held and the
/// cursor has moved exactly past it: the merge invents nothing, alters no
/// values, and leaves each dataset positioned just after what it emitted.
pub open spec fn yielded_from(pre: Forward, post: Forward, site: Site) -> bool {
    exists|c: int|
        0 <= c < pre.0.rem_names().len() && site_at(pre, c, site) && advanced_past(pre, post, c)
}

/// True when, for dataset `i` of one merge step, the live cursor is a
/// suffix of the stream it started from, `offs[i]` counting the consumed
/// sites, and the candidate is the site held just before that suffix.
pub open spec fn tracked_at(
    orig: Seq<Forward>,
    cur: Seq<Forward>,
    offs: Seq<int>,
    ps: Seq<Site>,
    i: int,
) -> bool {
    let c = cur[i].0;
    &&& 1 <= offs[i] <= orig[i].0.rem_names().len()
    &&& c.rem_names() == orig[i].0.rem_names().skip(offs[i])
    &&& c.rem_pos() == orig[i].0.rem_pos().skip(offs[i])
    &&& c.rem_vals() == orig[i].0.rem_vals().skip(orig[i].0.k() * offs[i])
    &&& c.k() == orig[i].0.k()
    &&& c.well_formed()
    &&& site_at(orig[i], offs[i] - 1, ps[i])
}

/// True when the bookkeeping of one merge step holds for every dataset.
pub open spec fn tracked_state(
    orig: Seq<Forward>,
    cur: Seq<Forward>,
    offs: Seq<int>,
    ps: Seq<Site>,
) -> bool {
    forall|i: int| 0 <= i < orig.len() ==> #[trigger] tracked_at(orig, cur, offs, ps, i)
}

/// True when every cursor still holds a dictionary site and those first
/// dictionary sites all lie at one location: the next aligned tuple is
/// already at hand.
pub open spec fn heads_aligned(cursors: Seq<Forward>, dict: Seq<Seq<char>>) -> bool {
    &&& cursors.len() > 0
    &&& forall|i: int| 0 <= i < cursors.len() ==> (#[trigger] cursors[i]).0.well_formed()
    &&& forall|i: int| 0 <= i < cursors.len() ==> has_head(#[trigger] cursors[i], dict)
    &&& forall|i: int|
        0 <= i < cursors.len() ==> head_loc(#[trigger] cursors[i], dict) == head_loc(
            cursors[0],
            dict,
        )
}

/// Copies a site field by field.
fn clone_site(s: &Site) -> (r: Site)
    ensures
        r.name@ == s.name@,
        r.position == s.position,
        r.values@ == s.values@,
{
    Site::new(s.name.clone(), s.position, slice_to_vec(s.values.as_slice()))
}

/// The aligned sites of several datasets: advances every dataset in lockstep
/// and yields exactly the locations all of them share, in dictionary order.
pub struct MergedSites {
    pub iters: MultiForward,
    pub dict: SequenceDict,
    pub done: bool,
}

impl MergedSites {
    /// Well-formedness of the merge state.
    pub open spec fn inv(&self) -> bool {
        &&& self.iters.inv()
        &&& self.dict.wf()
    }

    fn new(iters: MultiForward, dict: SequenceDict) -> (r: Self)
        ensures
            r.iters == iters,
            r.dict == dict,
            !r.done,
    {
        Self { iters, dict, done: false }
    }

    /// Opens a merge over the given datasets: builds the shared dictionary
    /// from their indexes and one site cursor per dataset.
    #[verifier::loop_isolation(false)]
    pub fn from_safs(safs: Vec<Reader>) -> (r: Self)
        requires
            forall|i: int| 0 <= i < safs@.len() ==> (#[trigger] safs@[i]).wf(),
        ensures
            r.inv(),
            !r.done,
            r.dict.names() == spec_dict(safs@.map_values(|rd: Reader| index_names(rd.index))),
            r.iters.0@.len() == safs@.len(),
            forall|i: int|
                0 <= i < safs@.len() ==> {
                    let c = (#[trigger] r.iters.0@[i]).0;
                    &&& c.rem_names() == crate::saf::index::expand_entries(safs@[i].index.entries@)
                    &&& c.rem_pos() == safs@[i].position_reader.units()
                    &&& c.positions.inner.clean() == safs@[i].position_reader.clean()
                    &&& c.rem_vals() == safs@[i].value_reader.units()
                    &&& c.values.inner.clean() == safs@[i].value_reader.clean()
                    &&& c.k() == safs@[i].index.n_alleles
                    &&& !c.done
                },
    {
        let ghost orig = safs@;
        let dict = SequenceDict::from_saf_readers(&safs);
        let mut rest = safs;
        let mut cursors: Vec<Forward> = Vec::new();
        while rest.len() > 0
            invariant
                cursors@.len() + rest@.len() == orig.len(),
                rest@ =~= orig.skip(cursors@.len() as int),
                forall|i: int|
                    0 <= i < cursors@.len() ==> {
                        let c = (#[trigger] cursors@[i]).0;
                        &&& c.inv()
                        &&& c.rem_names() == crate::saf::index::expand_entries(
                            orig[i].index.entries@,
                        )
                        &&& c.rem_pos() == orig[i].position_reader.units()
                        &&& c.positions.inner.clean() == orig[i].position_reader.clean()
                        &&& c.rem_vals() == orig[i].value_reader.units()
                        &&& c.values.inner.clean() == orig[i].value_reader.clean()
                        &&& c.k() == orig[i].index.n_alleles
                        &&& !c.done
                    },
            decreases rest@.len(),
        {
            let ghost k = cursors@.len() as int;
            assert(rest@[0] == orig[k]);
            let rd = rest.remove(0);
            cursors.push(Forward(rd.sites()));
            proof {
                assert(rest@ =~= orig.skip(k + 1));
            }
        }
        Self::new(MultiForward(cursors), dict)
    }

    /// Yields the next aligned tuple: one site per dataset, every site at
    /// one location, on a contig every dataset shares. The merge ends
    /// cleanly when any dataset runs out of shared sites; the first decode
    /// error ends it too, after being yielded once.
    #[verifier::loop_isolation(false)]
    #[verifier::rlimit(100)]
    pub fn next(&mut self) -> (r: Option<Result<Vec<Site>, SafError>>)
        requires
            old(self).inv(),
        ensures
            final(self).inv(),
            final(self).dict == old(self).dict,
            old(self).done ==> r is None && *final(self) == *old(self),
            r matches Some(x) ==> x matches Ok(sites) ==> (sites@.len() == old(
                self,
            ).iters.0@.len() && (forall|i: int|
                0 <= i < sites@.len() ==> same_loc(#[trigger] sites@[i], sites@[0])) && (forall|
                i: int,
            |
                0 <= i < sites@.len() ==> old(self).dict.names().contains(
                    (#[trigger] sites@[i]).name@,
                ))),
            r matches Some(x) ==> x is Err ==> (final(self).done && (e_of(x)
                == SafError::Truncated || e_of(x) == SafError::IncompatibleLengths)),
            !old(self).done && (forall|i: int|
                0 <= i < old(self).iters.0@.len() ==> (#[trigger] old(
                    self,
                ).iters.0@[i]).0.well_formed()) && (exists|i: int|
                0 <= i < old(self).iters.0@.len() && (#[trigger] old(
                    self,
                ).iters.0@[i]).0.rem_names().len() == 0) ==> r is None,
            !old(self).done && (forall|i: int|
                0 <= i < old(self).iters.0@.len() ==> (#[trigger] old(
                    self,
                ).iters.0@[i]).0.well_formed()) ==> (r matches Some(x) ==> x matches Ok(tuple)
                ==> (!final(self).done && final(self).iters.0@.len() == old(
                    self,
                ).iters.0@.len() && (forall|i: int|
                0 <= i < tuple@.len() ==> #[trigger] yielded_from(
                    old(self).iters.0@[i],
                    final(self).iters.0@[i],
                    tuple@[i],
                )))),
            !old(self).done && old(self).iters.0@.len() > 0 && (forall|i: int|
                0 <= i < old(self).iters.0@.len() ==> (#[trigger] old(
                    self,
                ).iters.0@[i]).0.well_formed()) && (forall|i: int|
                0 <= i < old(self).iters.0@.len() ==> stream_sorted(
                    #[trigger] old(self).iters.0@[i],
                    old(self).dict.names(),
                )) ==> ({
                &&& (r matches Some(x) ==> x matches Ok(tuple) ==> (shared_loc(
                    old(self).iters.0@,
                    old(self).dict.names(),
                    tuple@[0].name@,
                    tuple@[0].position,
                ) && nothing_shared_behind(old(self).iters.0@, old(self).dict.names(), tuple@)))
                &&& ((exists|nm: Seq<char>, pp: u32|
                    shared_loc(
                        old(self).iters.0@,
                        old(self).dict.names(),
                        nm,
                        pp,
                    )) ==> (r matches Some(x) && x is Ok))
            }),
            !old(self).done && heads_aligned(old(self).iters.0@, old(self).dict.names()) ==> (
            r matches Some(x)
                && x matches Ok(tuple)
                && tuple@.len() == old(self).iters.0@.len()
                && (forall|i: int|
                0 <= i < tuple@.len() ==> (((#[trigger] tuple@[i]).name@, tuple@[i].position)
                    == head_loc(old(self).iters.0@[i], old(self).dict.names())
                    && tuple@[i].values@ == head_vals(
                    old(self).iters.0@[i],
                    old(self).dict.names(),
                )))),
    {
        if self.done {
            return None;
        }
        let n = self.iters.0.len();
        if n == 0 {
            self.done = true;
            return None;
        }
        let ghost ha = heads_aligned(old(self).iters.0@, old(self).dict.names());
        let ghost orig = old(self).iters.0@;
        let ghost dn = old(self).dict.names();
        let ghost w = forall|i: int| 0 <= i < n ==> (#[trigger] orig[i]).0.well_formed();
        let ghost srt = forall|i: int| 0 <= i < n ==> stream_sorted(#[trigger] orig[i], dn);
        let ghost w2 = w && srt;
        let ghost shr = exists|nm: Seq<char>, pp: u32| shared_loc(orig, dn, nm, pp);
        let ghost mut offs: Seq<int> = Seq::new(
            n as nat,
            |i: int| first_dict_site(orig[i].0.rem_names(), dn) + 1,
        );
        let mut positions = match self.iters.forward_to_dict(&self.dict) {
            None => {
                proof {
                    if w2 && shr {
                        let nmpp = choose|nm: Seq<char>, pp: u32| shared_loc(orig, dn, nm, pp);
                        lemma_shared_has_heads(orig, dn, nmpp.0, nmpp.1);
                    }
                }
                self.done = true;
                return None;
            },
            Some(Err(e)) => {
                proof {
                    if w2 && shr {
                        let nmpp = choose|nm: Seq<char>, pp: u32| shared_loc(orig, dn, nm, pp);
                        lemma_shared_has_heads(orig, dn, nmpp.0, nmpp.1);
                    }
                }
                self.done = true;
                return Some(Err(e));
            },
            Some(Ok(ps)) => ps,
        };
        let ghost ps0 = positions.0@;
        proof {
            if w {
                assert(forall|i: int| 0 <= i < n ==> has_head(#[trigger] orig[i], dn));
                assert forall|i: int| 0 <= i < orig.len() implies tracked_at(
                    orig,
                    self.iters.0@,
                    offs,
                    positions.0@,
                    i,
                ) by {
                    assert(offs[i] == first_dict_site(orig[i].0.rem_names(), dn) + 1);
                    lemma_first_dict_site(orig[i].0.rem_names(), dn);
                    assert(has_head(orig[i], dn));
                    assert((positions.0@[i].name@, positions.0@[i].position) == head_loc(
                        orig[i],
                        dn,
                    ));
                    assert(positions.0@[i].values@ == head_vals(orig[i], dn));
                    assert(advanced_past_head(orig[i], self.iters.0@[i], dn));
                }
                assert(tracked_state(orig, self.iters.0@, offs, positions.0@));
                if srt {
                    assert forall|nm: Seq<char>, pp: u32, i: int|
                        #![trigger shared_loc(orig, dn, nm, pp), positions.0@[i]]
                        shared_loc(orig, dn, nm, pp) && 0 <= i < positions.0@.len() implies reached(
                        dn,
                        nm,
                        pp,
                        positions.0@[i].name@,
                        positions.0@[i].position,
                    ) by {
                        assert(tracked_at(orig, self.iters.0@, offs, positions.0@, i));
                        let names_i = orig[i].0.rem_names();
                        let pos_i = orig[i].0.rem_pos();
                        let f = offs[i] - 1;
                        assert(offs[i] == first_dict_site(names_i, dn) + 1);
                        lemma_first_dict_site(names_i, dn);
                        assert(orig[i].0.rem_names().len() == names_i.len());
                        assert(holds_loc(orig[i], nm, pp));
                        let c = choose|c: int|
                            0 <= c < names_i.len() && names_i[c] == nm && pos_i[c] == pp;
                        assert(0 <= c < names_i.len() && names_i[c] == nm && pos_i[c] == pp);
                        assert(positions.0@[i].name@ == names_i[f] && positions.0@[i].position
                            == pos_i[f]);
                        if c < f {
                            assert(!dn.contains(names_i[c]));
                        } else if c > f {
                            assert(stream_sorted(orig[i], dn));
                            assert(spec_compare(dn, names_i[f], pos_i[f], names_i[c], pos_i[c])
                                == Some(Ordering::Less));
                            lemma_compare_flip(dn, names_i[f], pos_i[f], nm, pp);
                        }
                    }
                    assert(nothing_shared_behind(orig, dn, positions.0@));
                }
            }
        }
        loop
            invariant
                self.dict == old(self).dict,
                self.inv(),
                self.iters.0@.len() == n,
                positions.0@.len() == n,
                n >= 1,
                !self.done,
                forall|i: int|
                    0 <= i < n ==> self.dict.names().contains(
                        (#[trigger] positions.0@[i]).name@,
                    ),
                w2 ==> nothing_shared_behind(orig, dn, positions.0@),
                ha ==> positions.0@ == ps0,
                ha ==> (forall|i: int|
                    0 <= i < n ==> (((#[trigger] ps0[i]).name@, ps0[i].position) == head_loc(
                        old(self).iters.0@[i],
                        old(self).dict.names(),
                    ) && ps0[i].values@ == head_vals(
                        old(self).iters.0@[i],
                        old(self).dict.names(),
                    ))),
                offs.len() == n,
                w ==> tracked_state(orig, self.iters.0@, offs, positions.0@),
            decreases sum_rem(self.iters.0@),
        {
            let aligned = positions.all_equal();
            if aligned {
                proof {
                    if w2 {
                        assert forall|i: int| 0 <= i < orig.len() implies #[trigger] holds_loc(
                            orig[i],
                            positions.0@[0].name@,
                            positions.0@[0].position,
                        ) by {
                            assert(tracked_at(orig, self.iters.0@, offs, positions.0@, i));
                            assert(site_at(orig[i], offs[i] - 1, positions.0@[i]));
                            assert(orig[i].0.rem_names()[offs[i] - 1] == positions.0@[0].name@
                                && orig[i].0.rem_pos()[offs[i] - 1]
                                == positions.0@[0].position);
                        }
                        assert(dn.contains(positions.0@[0].name@));
                        assert(shared_loc(
                            orig,
                            dn,
                            positions.0@[0].name@,
                            positions.0@[0].position,
                        ));
                        assert(nothing_shared_behind(orig, dn, positions.0@));
                    }
                    if w {
                        assert forall|i: int| 0 <= i < n implies yielded_from(
                            orig[i],
                            self.iters.0@[i],
                            positions.0@[i],
                        ) by {
                            assert(tracked_at(orig, self.iters.0@, offs, positions.0@, i));
                            assert(site_at(orig[i], offs[i] - 1, positions.0@[i]));
                            assert(advanced_past(orig[i], self.iters.0@[i], offs[i] - 1));
                        }
                    }
                }
                return Some(Ok(positions.0));
            }
            proof {
                if ha {
                    assert forall|i: int|
                        0 <= i < n implies ((#[trigger] positions.0@[i]).name@
                        == positions.0@[0].name@ && positions.0@[i].position
                        == positions.0@[0].position) by {
                        assert(head_loc(old(self).iters.0@[i], old(self).dict.names())
                            == head_loc(old(self).iters.0@[0], old(self).dict.names()));
                        assert((ps0[i].name@, ps0[i].position) == (ps0[0].name@, ps0[0].position));
                    }
                    assert(false);
                }
            }
            proof {
                assert(!(forall|j: int|
                    0 <= j < positions.0@.len() ==> ((#[trigger] positions.0@[j]).name@
                        == positions.0@[0].name@ && positions.0@[j].position
                        == positions.0@[0].position)));
                assert(exists|j: int|
                    0 <= j < positions.0@.len() && !same_loc(
                        #[trigger] positions.0@[j],
                        positions.0@[0],
                    ));
            }
            let ghost bad = choose|j: int|
                0 <= j < positions.0@.len() && !same_loc(#[trigger] positions.0@[j], positions.0@[0]);
            proof {
                assert(0 <= bad < n && !same_loc(positions.0@[bad], positions.0@[0]));
            }
            let am = match positions.argmax(&self.dict) {
                Some(am) => am,
                None => {
                    self.done = true;
                    return None;
                },
            };
            let max_site = clone_site(&positions.0[am]);
            assert(self.dict.names().contains(max_site.name@));
            let ghost top_positions = positions.0@;
            let ghost top_iters = self.iters.0@;
            let ghost mut advanced: bool = false;
            let mut i: usize = 0;
            while i < n
                invariant
                    self.dict == old(self).dict,
                    self.inv(),
                    self.iters.0@.len() == n,
                    positions.0@.len() == n,
                    i <= n,
                    !self.done,
                    self.dict.names().contains(max_site.name@),
                    forall|j: int|
                        0 <= j < n ==> self.dict.names().contains(
                            (#[trigger] positions.0@[j]).name@,
                        ),
                    forall|j: int| i <= j < n ==> positions.0@[j] == top_positions[j],
                    advanced ==> sum_rem(self.iters.0@) < sum_rem(top_iters),
                    !advanced ==> sum_rem(self.iters.0@) == sum_rem(top_iters),
                    (exists|j: int| 0 <= j < i && !same_loc(top_positions[j], max_site))
                        ==> advanced,
                    am < n,
                    positions.0@[am as int].name@ == max_site.name@,
                    positions.0@[am as int].position == max_site.position,
                    offs.len() == n,
                    w ==> tracked_state(orig, self.iters.0@, offs, positions.0@),
                    w2 ==> nothing_shared_behind(orig, dn, positions.0@),
                decreases n - i,
            {
                if !positions.0[i].same_location(&max_site) {
                    let ghost iters_before = self.iters.0@;
                    let ghost pos_before = positions.0@;
                    let ghost offs_before = offs;
                    let mut f = self.iters.0.remove(i);
                    let res = f.forward_to_position(&max_site, &self.dict);
                    self.iters.0.insert(i, f);
                    proof {
                        lemma_sum_rem_remove(iters_before, i as int);
                        lemma_sum_rem_insert(iters_before.remove(i as int), i as int, f);
                        assert(self.iters.0@ =~= iters_before.remove(i as int).insert(
                            i as int,
                            f,
                        ));
                    }
                    match res {
                        None => {
                            proof {
                                if w2 && shr {
                                    assert(nothing_shared_behind(orig, dn, pos_before));
                                    assert(tracked_at(
                                        orig,
                                        iters_before,
                                        offs_before,
                                        pos_before,
                                        i as int,
                                    ));
                                    let nmpp = choose|nm: Seq<char>, pp: u32|
                                        shared_loc(orig, dn, nm, pp);
                                    let nm = nmpp.0;
                                    let pp2 = nmpp.1;
                                    assert(shared_loc(orig, dn, nm, pp2));
                                    assert(reached(
                                        dn,
                                        nm,
                                        pp2,
                                        pos_before[am as int].name@,
                                        pos_before[am as int].position,
                                    ));
                                    assert(reached(
                                        dn,
                                        nm,
                                        pp2,
                                        max_site.name@,
                                        max_site.position,
                                    ));
                                    let names_i = orig[i as int].0.rem_names();
                                    let pos_i = orig[i as int].0.rem_pos();
                                    let off2 = offs_before[i as int];
                                    let pre2 = iters_before[i as int];
                                    assert(holds_loc(orig[i as int], nm, pp2));
                                    let c = choose|c: int|
                                        0 <= c < names_i.len() && names_i[c] == nm && pos_i[c]
                                            == pp2;
                                    assert(0 <= c < names_i.len() && names_i[c] == nm && pos_i[c]
                                        == pp2);
                                    let on = pos_before[i as int].name@;
                                    let op = pos_before[i as int].position;
                                    assert(dn.contains(on));
                                    assert(pos_before[i as int] == top_positions[i as int]);
                                    assert(max_site.name@ == top_positions[am as int].name@
                                        && max_site.position
                                        == top_positions[am as int].position);
                                    assert(spec_compare(
                                        dn,
                                        top_positions[i as int].name@,
                                        top_positions[i as int].position,
                                        top_positions[am as int].name@,
                                        top_positions[am as int].position,
                                    ) matches Some(o) && o != Ordering::Greater);
                                    assert(spec_compare(
                                        dn,
                                        on,
                                        op,
                                        max_site.name@,
                                        max_site.position,
                                    ) == Some(Ordering::Less)) by {
                                        if spec_compare(
                                            dn,
                                            on,
                                            op,
                                            max_site.name@,
                                            max_site.position,
                                        ) == Some(Ordering::Equal) {
                                            if on != max_site.name@ {
                                                lemma_name_index_inj(dn, on, max_site.name@);
                                            }
                                        }
                                    }
                                    assert(on == names_i[off2 - 1] && op == pos_i[off2 - 1]);
                                    assert(stream_sorted(orig[i as int], dn));
                                    if c <= off2 - 1 {
                                        if c < off2 - 1 {
                                            assert(spec_compare(dn, nm, pp2, on, op) == Some(
                                                Ordering::Less,
                                            ));
                                        }
                                        lemma_compare_trans_lt(
                                            dn,
                                            nm,
                                            pp2,
                                            on,
                                            op,
                                            max_site.name@,
                                            max_site.position,
                                        );
                                        assert(false);
                                    }
                                    assert(c >= off2);
                                    assert(pre2.0.rem_names()[c - off2] == names_i[c]
                                        && pre2.0.rem_pos()[c - off2] == pos_i[c]);
                                    let fpn = first_at_or_past(
                                        pre2.0.rem_names(),
                                        pre2.0.rem_pos(),
                                        dn,
                                        max_site.name@,
                                        max_site.position,
                                    );
                                    lemma_first_at_or_past_bounds(
                                        pre2.0.rem_names(),
                                        pre2.0.rem_pos(),
                                        dn,
                                        max_site.name@,
                                        max_site.position,
                                    );
                                    assert(fpn <= c - off2) by {
                                        if fpn > c - off2 {
                                            assert(!reached(
                                                dn,
                                                pre2.0.rem_names()[c - off2],
                                                pre2.0.rem_pos()[c - off2],
                                                max_site.name@,
                                                max_site.position,
                                            ));
                                        }
                                    }
                                    assert(fpn < pre2.0.rem_names().len());
                                    assert(false);
                                }
                            }
                            self.done = true;
                            return None;
                        },
                        Some(Err(e)) => {
                            proof {
                                if w {
                                    assert(tracked_at(
                                        orig,
                                        iters_before,
                                        offs_before,
                                        pos_before,
                                        i as int,
                                    ));
                                }
                            }
                            self.done = true;
                            return Some(Err(e));
                        },
                        Some(Ok(v)) => {
                            proof {
                                assert(f.rem() < iters_before[i as int].rem());
                                assert(sum_rem(self.iters.0@) < sum_rem(top_iters));
                                advanced = true;
                                // The replacement lies on a dictionary contig:
                                // it compares against the maximum, so either it
                                // shares that contig or the dictionary lists
                                // its own.
                                let c = spec_compare(
                                    self.dict.names(),
                                    v.name@,
                                    v.position,
                                    max_site.name@,
                                    max_site.position,
                                );
                                if v.name@ != max_site.name@ {
                                    assert(self.dict.names().contains(v.name@));
                                }
                                if w {
                                    assert(tracked_state(orig, iters_before, offs_before, pos_before));
                                    assert(tracked_at(
                                        orig,
                                        iters_before,
                                        offs_before,
                                        pos_before,
                                        i as int,
                                    ));
                                    let pre = iters_before[i as int];
                                    let off = offs_before[i as int];
                                    let k = orig[i as int].0.k();
                                    let names_i = orig[i as int].0.rem_names();
                                    let pos_i = orig[i as int].0.rem_pos();
                                    let vals_i = orig[i as int].0.rem_vals();
                                    let fp = first_at_or_past(
                                        pre.0.rem_names(),
                                        pre.0.rem_pos(),
                                        dn,
                                        max_site.name@,
                                        max_site.position,
                                    );
                                    assert(pre.0.well_formed());
                                    assert(pre.0.rem_names() == names_i.skip(off));
                                    assert(pre.0.rem_pos() == pos_i.skip(off));
                                    assert(pre.0.rem_vals() == vals_i.skip(k * off));
                                    assert(pre.0.k() == k);
                                    assert(1 <= off <= names_i.len());
                                    lemma_first_at_or_past_bounds(
                                        pre.0.rem_names(),
                                        pre.0.rem_pos(),
                                        dn,
                                        max_site.name@,
                                        max_site.position,
                                    );
                                    assert(fp < pre.0.rem_names().len()) by {
                                        if fp == pre.0.rem_names().len() {
                                            assert(res is None);
                                        }
                                    }
                                    assert(v.name@ == pre.0.rem_names()[fp] && v.position
                                        == pre.0.rem_pos()[fp]);
                                    assert(advanced_past(pre, self.iters.0@[i as int], fp));
                                    assert(off + fp + 1 <= names_i.len());
                                    assert(0 <= k * off && k * (off + fp) == k * off + k * fp
                                        && k * (off + fp + 1) == k * off + k * fp + k && k * (off
                                        + fp + 1) <= vals_i.len() && k * (fp + 1) == k * fp + k)
                                        by (nonlinear_arith)
                                        requires
                                            k > 0,
                                            0 <= off,
                                            0 <= fp,
                                            off + fp + 1 <= names_i.len(),
                                            vals_i.len() == k * names_i.len(),
                                    ;
                                    assert(v.name@ == names_i[off + fp] && v.position == pos_i[off
                                        + fp]);
                                    assert(v.values@ =~= vals_i.subrange(
                                        k * (off + fp),
                                        k * (off + fp) + k,
                                    ));
                                    let post = self.iters.0@[i as int];
                                    assert(post.0.rem_names() =~= names_i.skip(off + fp + 1));
                                    assert(post.0.rem_pos() =~= pos_i.skip(off + fp + 1));
                                    assert(post.0.rem_vals() =~= vals_i.skip(
                                        k * (off + fp + 1),
                                    ));
                                    assert(off + fp + 1 <= names_i.len());
                                    offs = offs.update(i as int, off + fp + 1);
                                }
                            }
                            let _ = positions.0.remove(i);
                            positions.0.insert(i, v);
                            proof {
                                assert(positions.0@ =~= pos_before.update(i as int, v));
                                if w {
                                    let pre = iters_before[i as int];
                                    let off = offs_before[i as int];
                                    let fp = first_at_or_past(
                                        pre.0.rem_names(),
                                        pre.0.rem_pos(),
                                        dn,
                                        max_site.name@,
                                        max_site.position,
                                    );
                                    assert(offs == offs_before.update(i as int, off + fp + 1));
                                    assert forall|j: int| 0 <= j < orig.len() implies tracked_at(
                                        orig,
                                        self.iters.0@,
                                        offs,
                                        positions.0@,
                                        j,
                                    ) by {
                                        if j == i as int {
                                            assert(offs[j] == off + fp + 1);
                                            assert(positions.0@[j] == v);
                                            assert(site_at(orig[j], off + fp, v));
                                        } else {
                                            assert(self.iters.0@[j] == iters_before[j]);
                                            assert(offs[j] == offs_before[j]);
                                            assert(positions.0@[j] == pos_before[j]);
                                            assert(tracked_at(
                                                orig,
                                                iters_before,
                                                offs_before,
                                                pos_before,
                                                j,
                                            ));
                                        }
                                    }
                                    assert(tracked_state(orig, self.iters.0@, offs, positions.0@));
                                    if srt {
                                        assert(nothing_shared_behind(orig, dn, pos_before));
                                        let names_i = orig[i as int].0.rem_names();
                                        let pos_i = orig[i as int].0.rem_pos();
                                        let off2 = offs_before[i as int];
                                        let pre2 = iters_before[i as int];
                                        let fp2 = first_at_or_past(
                                            pre2.0.rem_names(),
                                            pre2.0.rem_pos(),
                                            dn,
                                            max_site.name@,
                                            max_site.position,
                                        );
                                        assert forall|nm: Seq<char>, pp2: u32, j: int|
                                            #![trigger shared_loc(orig, dn, nm, pp2), positions.0@[j]]
                                            shared_loc(orig, dn, nm, pp2) && 0 <= j
                                                < positions.0@.len() implies reached(
                                            dn,
                                            nm,
                                            pp2,
                                            positions.0@[j].name@,
                                            positions.0@[j].position,
                                        ) by {
                                            assert(reached(
                                                dn,
                                                nm,
                                                pp2,
                                                pos_before[am as int].name@,
                                                pos_before[am as int].position,
                                            ));
                                            assert(reached(
                                                dn,
                                                nm,
                                                pp2,
                                                max_site.name@,
                                                max_site.position,
                                            ));
                                            if j != i as int {
                                                assert(positions.0@[j] == pos_before[j]);
                                                assert(reached(
                                                    dn,
                                                    nm,
                                                    pp2,
                                                    pos_before[j].name@,
                                                    pos_before[j].position,
                                                ));
                                            } else {
                                                assert(holds_loc(orig[i as int], nm, pp2));
                                                let c = choose|c: int|
                                                    0 <= c < names_i.len() && names_i[c] == nm
                                                        && pos_i[c] == pp2;
                                                assert(0 <= c < names_i.len() && names_i[c] == nm
                                                    && pos_i[c] == pp2);
                                                let on = pos_before[i as int].name@;
                                                let op = pos_before[i as int].position;
                                                assert(dn.contains(on));
                                                assert(pos_before[i as int]
                                                    == top_positions[i as int]);
                                                assert(max_site.name@
                                                    == top_positions[am as int].name@
                                                    && max_site.position
                                                    == top_positions[am as int].position);
                                                assert(spec_compare(
                                                    dn,
                                                    top_positions[i as int].name@,
                                                    top_positions[i as int].position,
                                                    top_positions[am as int].name@,
                                                    top_positions[am as int].position,
                                                ) matches Some(o) && o != Ordering::Greater);
                                                assert(spec_compare(
                                                    dn,
                                                    on,
                                                    op,
                                                    max_site.name@,
                                                    max_site.position,
                                                ) matches Some(o) && o != Ordering::Greater);
                                                assert(spec_compare(
                                                    dn,
                                                    on,
                                                    op,
                                                    max_site.name@,
                                                    max_site.position,
                                                ) == Some(Ordering::Less)) by {
                                                    if spec_compare(
                                                        dn,
                                                        on,
                                                        op,
                                                        max_site.name@,
                                                        max_site.position,
                                                    ) == Some(Ordering::Equal) {
                                                        if on != max_site.name@ {
                                                            lemma_name_index_inj(
                                                                dn,
                                                                on,
                                                                max_site.name@,
                                                            );
                                                        }
                                                    }
                                                }
                                                assert(on == names_i[off2 - 1] && op == pos_i[off2
                                                    - 1]);
                                                assert(stream_sorted(orig[i as int], dn));
                                                if c <= off2 - 1 {
                                                    if c < off2 - 1 {
                                                        assert(spec_compare(dn, nm, pp2, on, op)
                                                            == Some(Ordering::Less));
                                                    }
                                                    lemma_compare_trans_lt(
                                                        dn,
                                                        nm,
                                                        pp2,
                                                        on,
                                                        op,
                                                        max_site.name@,
                                                        max_site.position,
                                                    );
                                                    assert(false);
                                                } else if c < off2 + fp2 {
                                                    assert(pre2.0.rem_names()[c - off2]
                                                        == names_i[c] && pre2.0.rem_pos()[c - off2]
                                                        == pos_i[c]);
                                                    assert(!reached(
                                                        dn,
                                                        nm,
                                                        pp2,
                                                        max_site.name@,
                                                        max_site.position,
                                                    ));
                                                    assert(false);
                                                } else {
                                                    assert(positions.0@[j].name@ == names_i[off2
                                                        + fp2] && positions.0@[j].position
                                                        == pos_i[off2 + fp2]);
                                                    if c > off2 + fp2 {
                                                        assert(spec_compare(
                                                            dn,
                                                            names_i[off2 + fp2],
                                                            pos_i[off2 + fp2],
                                                            nm,
                                                            pp2,
                                                        ) == Some(Ordering::Less));
                                                        lemma_compare_flip(
                                                            dn,
                                                            names_i[off2 + fp2],
                                                            pos_i[off2 + fp2],
                                                            nm,
                                                            pp2,
                                                        );
                                                    }
                                                }
                                            }
                                        }
                                        assert(nothing_shared_behind(orig, dn, positions.0@));
                                    }
                                }
                            }
                        },
                    }
                }
                i += 1;
            }
            proof {
                if same_loc(top_positions[bad], max_site) && same_loc(
                    top_positions[0],
                    max_site,
                ) {
                    assert(same_loc(top_positions[bad], top_positions[0]));
                }
                assert(advanced);
                lemma_sum_rem_nonneg(self.iters.0@);
            }
        }
    }
}

} // verus!
