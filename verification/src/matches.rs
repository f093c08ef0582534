//! Candidate and match records, their mathematical views, the total order on
//! match results, and the reconstruction of contiguous matched byte ranges.

use vstd::prelude::*;
use vstd::utf8::encode_utf8;
use crate::char_bag::CharBag;
use crate::text::char_len_at;

verus! {

/// An immutable scoring candidate: a caller-assigned identifier, the original
/// string, and a fingerprint derived once from the string at construction.
#[derive(Clone, Debug)]
pub struct StringMatchCandidate {
    pub id: usize,
    pub string: String,
    pub char_bag: CharBag,
}

/// Mathematical view of a candidate.
pub struct CandidateView {
    pub id: int,
    pub text: Seq<char>,
    pub bag: u64,
}

impl View for StringMatchCandidate {
    type V = CandidateView;

    open spec fn view(&self) -> CandidateView {
        CandidateView { id: self.id as int, text: self.string@, bag: self.char_bag.0 }
    }
}

/// Views of a sequence of candidates.
pub open spec fn candidate_views(s: Seq<StringMatchCandidate>) -> Seq<CandidateView> {
    s.map_values(|c: StringMatchCandidate| c@)
}

impl StringMatchCandidate {
    /// Build a candidate, deriving its fingerprint from the string.
    pub fn new(id: usize, string: &str) -> (r: StringMatchCandidate)
        ensures
            r@.id == id as int,
            r@.text == string@,
            r@.bag == crate::char_bag::bag_of(
                crate::text::fold_bytes(encode_utf8(string@)),
            ),
    {
        let char_bag = CharBag::from_bytes(string.as_bytes());
        StringMatchCandidate { id, string: string.to_owned(), char_bag }
    }

    /// True when this candidate's fingerprint covers `bag`.
    pub fn has_chars(&self, bag: CharBag) -> (r: bool)
        ensures
            r == crate::char_bag::bag_contains_all(self@.bag, bag.0),
    {
        self.char_bag.is_superset(bag)
    }

    /// The candidate's text, as an owned string.
    pub fn to_string(&self) -> (r: String)
        ensures
            r@ == self@.text,
    {
        self.string.clone()
    }
}

/// One search result: the originating candidate's identifier, its score
/// (higher is better, `0` for the empty-query case), the byte offsets of the
/// matched characters, and a copy of the candidate's string.
#[derive(Clone, Debug)]
pub struct StringMatch {
    pub candidate_id: usize,
    pub score: u64,
    pub positions: Vec<usize>,
    pub string: String,
}

/// Mathematical view of a match result.
pub struct MatchView {
    pub id: int,
    pub score: int,
    pub positions: Seq<int>,
    pub text: Seq<char>,
}

impl View for StringMatch {
    type V = MatchView;

    open spec fn view(&self) -> MatchView {
        MatchView {
            id: self.candidate_id as int,
            score: self.score as int,
            positions: self.positions@.map_values(|p: usize| p as int),
            text: self.string@,
        }
    }
}

/// Views of a sequence of match results.
pub open spec fn views_of(s: Seq<StringMatch>) -> Seq<MatchView> {
    s.map_values(|m: StringMatch| m@)
}

/// The strict total order on match results: higher score first, ties broken
/// by smaller candidate identifier.
pub open spec fn sorts_before(a: MatchView, b: MatchView) -> bool {
    a.score > b.score || (a.score == b.score && a.id < b.id)
}

/// `a` may stand at or before `b`: the complement of `sorts_before(b, a)`.
pub open spec fn ord_le(a: MatchView, b: MatchView) -> bool {
    !sorts_before(b, a)
}

/// A sequence is sorted by the total order on match results.
pub open spec fn sorted(s: Seq<MatchView>) -> bool {
    forall|i: int, j: int| 0 <= i < j < s.len() ==> ord_le(s[i], s[j])
}

impl StringMatch {
    /// The match's score.
    pub fn score(&self) -> (r: u64)
        ensures
            r as int == self@.score,
    {
        self.score
    }

    /// Replace the matched positions.
    pub fn set_positions(&mut self, positions: Vec<usize>)
        ensures
            final(self)@.positions == positions@.map_values(|p: usize| p as int),
            final(self)@.id == old(self)@.id,
            final(self)@.score == old(self)@.score,
            final(self)@.text == old(self)@.text,
    {
        self.positions = positions;
    }

    /// True when `self` sorts strictly before `other`.
    pub fn lt(&self, other: &StringMatch) -> (r: bool)
        ensures
            r == sorts_before(self@, other@),
    {
        self.score > other.score
            || (self.score == other.score && self.candidate_id < other.candidate_id)
    }
}

impl PartialEq for StringMatch {
    /// Two results are equal exactly when the order relation yields neither
    /// less-than nor greater-than: equal score and equal identifier.
    fn eq(&self, other: &StringMatch) -> (r: bool) {
        self.score == other.score && self.candidate_id == other.candidate_id
    }
}

impl vstd::std_specs::cmp::PartialEqSpecImpl for StringMatch {
    open spec fn obeys_eq_spec() -> bool {
        true
    }

    open spec fn eq_spec(&self, other: &StringMatch) -> bool {
        self@.score == other@.score && self@.id == other@.id
    }
}

impl PartialOrd for StringMatch {
    /// `Less` means `self` sorts first: higher score, or equal score and
    /// smaller candidate identifier. Every pair is comparable.
    fn partial_cmp(&self, other: &StringMatch) -> (r: Option<core::cmp::Ordering>) {
        if self.score > other.score || (self.score == other.score && self.candidate_id
            < other.candidate_id) {
            Some(core::cmp::Ordering::Less)
        } else if self.score == other.score && self.candidate_id == other.candidate_id {
            Some(core::cmp::Ordering::Equal)
        } else {
            Some(core::cmp::Ordering::Greater)
        }
    }
}

impl vstd::std_specs::cmp::PartialOrdSpecImpl for StringMatch {
    open spec fn obeys_partial_cmp_spec() -> bool {
        true
    }

    open spec fn partial_cmp_spec(&self, other: &StringMatch) -> Option<core::cmp::Ordering> {
        if sorts_before(self@, other@) {
            Some(core::cmp::Ordering::Less)
        } else if self@.score == other@.score && self@.id == other@.id {
            Some(core::cmp::Ordering::Equal)
        } else {
            Some(core::cmp::Ordering::Greater)
        }
    }
}

/// A contiguous matched byte range `[start, end)` in a candidate's string.
#[derive(Clone, Copy, Debug, PartialEq, Eq, Structural)]
pub struct MatchRange {
    pub start: usize,
    pub end: usize,
}

/// Ranges reconstructed from matched positions: the first position opens a
/// range, which is then extended while each next position equals the running
/// end. A position that is out of bounds or not on a character boundary
/// signals a broken invariant: the ranges found so far are kept, the current
/// run and everything after it are dropped.
pub open spec fn spec_ranges(t: Seq<u8>, ps: Seq<usize>) -> Seq<MatchRange>
    decreases ps.len(), 0int,
{
    if ps.len() == 0 {
        Seq::empty()
    } else {
        match char_len_at(t, ps[0] as int) {
            Some(l) => spec_ranges_run(t, ps.skip(1), ps[0] as int, ps[0] + l),
            None => Seq::empty(),
        }
    }
}

/// Continuation of `spec_ranges` with an open range `[start, end)`.
pub open spec fn spec_ranges_run(t: Seq<u8>, rest: Seq<usize>, start: int, end: int) -> Seq<
    MatchRange,
>
    decreases rest.len(), 1int,
{
    if rest.len() == 0 {
        seq![MatchRange { start: start as usize, end: end as usize }]
    } else if rest[0] as int == end {
        match char_len_at(t, end) {
            Some(l) => spec_ranges_run(t, rest.skip(1), start, end + l),
            None => Seq::empty(),
        }
    } else {
        seq![MatchRange { start: start as usize, end: end as usize }] + spec_ranges(t, rest)
    }
}

impl StringMatch {
    /// Coalesce the matched positions into contiguous byte ranges.
    pub fn ranges(&self) -> (r: Vec<MatchRange>)
        ensures
            r@ == spec_ranges(encode_utf8(self@.text), self.positions@),
    {
        let bytes: &[u8] = self.string.as_str().as_bytes();
        let n = bytes.len();
        let ghost t = encode_utf8(self@.text);
        let ghost ps = self.positions@;
        let mut out: Vec<MatchRange> = Vec::new();
        let mut i: usize = 0;
        proof {
            assert(t.len() == n as int);
            assert(ps.skip(0) =~= ps);
            assert(out@ + spec_ranges(t, ps) =~= spec_ranges(t, ps));
        }
        while i < self.positions.len()
            invariant
                bytes@ == t,
                t == encode_utf8(self@.text),
                t.len() <= usize::MAX,
                ps == self.positions@,
                i <= ps.len(),
                spec_ranges(t, ps) == out@ + spec_ranges(t, ps.skip(i as int)),
            decreases ps.len() - i,
        {
            let ghost i_outer = i;
            let p = self.positions[i];
            proof {
                assert(ps.skip(i as int)[0] == ps[i as int]);
            }
            let l_opt = crate::text::char_len_at_exec(bytes, p);
            match l_opt {
                None => {
                    proof {
                        assert(spec_ranges(t, ps.skip(i as int)) =~= Seq::<MatchRange>::empty());
                        assert(out@ + Seq::<MatchRange>::empty() =~= out@);
                    }
                    return out;
                },
                Some(l) => {
                    let start = p;
                    proof {
                        assert(p + l <= t.len());
                    }
                    let mut end = p + l;
                    i = i + 1;
                    proof {
                        assert(ps.skip(i - 1).skip(1) =~= ps.skip(i as int));
                        assert(spec_ranges(t, ps.skip(i - 1)) == spec_ranges_run(
                            t,
                            ps.skip(i as int),
                            start as int,
                            end as int,
                        ));
                    }
                    while i < self.positions.len() && self.positions[i] == end
                        invariant
                            bytes@ == t,
                            t == encode_utf8(self@.text),
                            t.len() <= usize::MAX,
                            ps == self.positions@,
                            i_outer < i <= ps.len(),
                            end <= t.len(),
                            spec_ranges(t, ps) == out@ + spec_ranges_run(
                                t,
                                ps.skip(i as int),
                                start as int,
                                end as int,
                            ),
                        decreases ps.len() - i,
                    {
                        proof {
                            assert(ps.skip(i as int)[0] == ps[i as int]);
                        }
                        let l2_opt = crate::text::char_len_at_exec(bytes, end);
                        match l2_opt {
                            None => {
                                proof {
                                    assert(spec_ranges_run(
                                        t,
                                        ps.skip(i as int),
                                        start as int,
                                        end as int,
                                    ) =~= Seq::<MatchRange>::empty());
                                    assert(out@ + Seq::<MatchRange>::empty() =~= out@);
                                }
                                return out;
                            },
                            Some(l2) => {
                                proof {
                                    assert(ps.skip(i as int).skip(1) =~= ps.skip(i + 1));
                                    assert(end + l2 <= t.len());
                                }
                                end = end + l2;
                                i = i + 1;
                            },
                        }
                    }
                    let range = MatchRange { start, end };
                    proof {
                        if i < ps.len() {
                            assert(ps.skip(i as int)[0] == ps[i as int]);
                            assert(ps.skip(i as int)[0] as int != end as int);
                            assert(spec_ranges_run(t, ps.skip(i as int), start as int, end as int)
                                == seq![range] + spec_ranges(t, ps.skip(i as int)));
                        } else {
                            assert(ps.skip(i as int) =~= Seq::<usize>::empty());
                            assert(spec_ranges_run(t, ps.skip(i as int), start as int, end as int)
                                == seq![range]);
                            assert(spec_ranges(t, ps.skip(i as int)) =~= Seq::<
                                MatchRange,
                            >::empty());
                            assert(seq![range] =~= seq![range] + spec_ranges(t, ps.skip(i as int)));
                        }
                        assert(out@ + (seq![range] + spec_ranges(t, ps.skip(i as int))) =~= (out@
                            + seq![range]) + spec_ranges(t, ps.skip(i as int)));
                    }
                    out.push(range);
                },
            }
        }
        proof {
            assert(ps.skip(ps.len() as int) =~= Seq::<usize>::empty());
            assert(out@ + Seq::<MatchRange>::empty() =~= out@);
        }
        out
    }
}

} // verus!
