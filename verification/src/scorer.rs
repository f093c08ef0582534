//! The scoring pass over one shard of candidates.
//!
//! A candidate matches when the case-folded query occurs as a subsequence of
//! its case-folded text, walked character by character over the UTF-8 bytes;
//! with smart case, an uppercase query character must match exactly. The
//! score prefers compact matches: the shorter the byte span from the first
//! matched character to the end of the last, the higher the score. The pass
//! keeps only the best `max_results` results found so far and polls the
//! cancellation flag before each candidate.

use vstd::prelude::*;
use vstd::utf8::encode_utf8;
use core::sync::atomic::AtomicBool;
use core::sync::atomic::Ordering;
use crate::char_bag::{bag_contains_all, bag_of, CharBag};
use crate::matches::{
    candidate_views, views_of, CandidateView, MatchView, StringMatch, StringMatchCandidate,
};
use crate::merge::cap_fold;
use crate::text::{fold_byte, fold_bytes, is_upper, step_len};

verus! {

/// Base from which the span of a match is subtracted to form its score.
pub const SCORE_BASE: u64 = 1000000;

/// The characters at byte offsets `ti` of `t` and `qi` of the query match:
/// same byte length, equal after case folding, and equal exactly when smart
/// case is on and the original query character is an uppercase letter.
pub open spec fn step_matches(
    t: Seq<u8>,
    qf: Seq<u8>,
    qo: Seq<u8>,
    smart: bool,
    ti: int,
    qi: int,
) -> bool
    recommends
        0 <= ti < t.len(),
        0 <= qi < qf.len(),
        qf.len() == qo.len(),
{
    let tl = step_len(t, ti);
    let ql = step_len(qf, qi);
    tl == ql && fold_bytes(t.subrange(ti, ti + tl)) == qf.subrange(qi, qi + ql) && (!smart
        || !is_upper(qo[qi]) || t.subrange(ti, ti + tl) == qo.subrange(qi, qi + ql))
}

/// Greedy left-to-right subsequence walk: returns the byte offsets of the
/// matched characters and the query offset reached.
pub open spec fn walk(
    t: Seq<u8>,
    qf: Seq<u8>,
    qo: Seq<u8>,
    smart: bool,
    ti: int,
    qi: int,
) -> (Seq<usize>, int)
    decreases t.len() - ti,
{
    if ti < 0 || ti >= t.len() || qi < 0 || qi >= qf.len() {
        (Seq::empty(), qi)
    } else {
        let tl = step_len(t, ti);
        let ql = step_len(qf, qi);
        if step_matches(t, qf, qo, smart, ti, qi) {
            let r = walk(t, qf, qo, smart, ti + tl, qi + ql);
            (seq![ti as usize] + r.0, r.1)
        } else {
            walk(t, qf, qo, smart, ti + tl, qi)
        }
    }
}

/// Positions produced by the walk lie in `[ti, t.len())`, strictly increase,
/// and are empty exactly when the query offset never advanced.
pub proof fn lemma_walk_positions(
    t: Seq<u8>,
    qf: Seq<u8>,
    qo: Seq<u8>,
    smart: bool,
    ti: int,
    qi: int,
)
    requires
        t.len() <= usize::MAX,
    ensures
        forall|k: int|
            0 <= k < walk(t, qf, qo, smart, ti, qi).0.len() ==> ti <= #[trigger] walk(
                t,
                qf,
                qo,
                smart,
                ti,
                qi,
            ).0[k] < t.len(),
        forall|k1: int, k2: int|
            0 <= k1 < k2 < walk(t, qf, qo, smart, ti, qi).0.len() ==> #[trigger] walk(
                t,
                qf,
                qo,
                smart,
                ti,
                qi,
            ).0[k1] < #[trigger] walk(t, qf, qo, smart, ti, qi).0[k2],
        qi <= walk(t, qf, qo, smart, ti, qi).1,
        qi <= qf.len() ==> walk(t, qf, qo, smart, ti, qi).1 <= qf.len(),
        walk(t, qf, qo, smart, ti, qi).0.len() == 0 ==> walk(t, qf, qo, smart, ti, qi).1 == qi,
    decreases t.len() - ti,
{
    if ti < 0 || ti >= t.len() || qi < 0 || qi >= qf.len() {
    } else {
        let tl = step_len(t, ti);
        let ql = step_len(qf, qi);
        if step_matches(t, qf, qo, smart, ti, qi) {
            lemma_walk_positions(t, qf, qo, smart, ti + tl, qi + ql);
            let w = walk(t, qf, qo, smart, ti, qi);
            let wn = walk(t, qf, qo, smart, ti + tl, qi + ql);
            assert(w.0 == seq![ti as usize] + wn.0);
            assert(w.0[0] == ti as usize);
            assert(1 <= tl);
            assert forall|k: int| 0 <= k < w.0.len() implies ti <= #[trigger] w.0[k] < t.len() by {
                if k > 0 {
                    assert(ti + tl <= walk(t, qf, qo, smart, ti + tl, qi + ql).0[k - 1]
                        < t.len());
                    assert(w.0[k] == wn.0[k - 1]);
                }
            }
            assert forall|k1: int, k2: int|
                0 <= k1 < k2 < w.0.len() implies #[trigger] w.0[k1] < #[trigger] w.0[k2] by {
                assert(ti + tl <= walk(t, qf, qo, smart, ti + tl, qi + ql).0[k2 - 1] < t.len());
                assert(w.0[k2] == wn.0[k2 - 1]);
                if k1 > 0 {
                    assert(walk(t, qf, qo, smart, ti + tl, qi + ql).0[k1 - 1] < walk(
                        t,
                        qf,
                        qo,
                        smart,
                        ti + tl,
                        qi + ql,
                    ).0[k2 - 1]);
                    assert(w.0[k1] == wn.0[k1 - 1]);
                }
            }
        } else {
            lemma_walk_positions(t, qf, qo, smart, ti + tl, qi);
        }
    }
}

/// Every query byte consumed by the walk occurs, case-folded, in the
/// case-folded candidate bytes.
pub proof fn lemma_walk_covers_query(
    t: Seq<u8>,
    qf: Seq<u8>,
    qo: Seq<u8>,
    smart: bool,
    ti: int,
    qi: int,
)
    ensures
        forall|j: int|
            qi <= j < walk(t, qf, qo, smart, ti, qi).1 ==> crate::char_bag::byte_in(
                fold_bytes(t),
                #[trigger] qf[j],
            ),
    decreases t.len() - ti,
{
    if ti < 0 || ti >= t.len() || qi < 0 || qi >= qf.len() {
    } else {
        let tl = step_len(t, ti);
        let ql = step_len(qf, qi);
        if step_matches(t, qf, qo, smart, ti, qi) {
            lemma_walk_covers_query(t, qf, qo, smart, ti + tl, qi + ql);
            let w1 = walk(t, qf, qo, smart, ti, qi).1;
            assert(w1 == walk(t, qf, qo, smart, ti + tl, qi + ql).1);
            assert forall|j: int|
                qi <= j < w1 implies crate::char_bag::byte_in(fold_bytes(t), #[trigger] qf[j]) by {
                if j < qi + ql {
                    assert(fold_bytes(t.subrange(ti, ti + tl)) == qf.subrange(qi, qi + ql));
                    assert(qf.subrange(qi, qi + ql)[j - qi] == qf[j]);
                    assert(fold_bytes(t.subrange(ti, ti + tl))[j - qi] == fold_byte(
                        t.subrange(ti, ti + tl)[j - qi],
                    ));
                    assert(t.subrange(ti, ti + tl)[j - qi] == t[ti + (j - qi)]);
                    assert(fold_bytes(t)[ti + (j - qi)] == fold_byte(t[ti + (j - qi)]));
                    assert(fold_bytes(t)[ti + (j - qi)] == qf[j]);
                }
            }
        } else {
            lemma_walk_covers_query(t, qf, qo, smart, ti + tl, qi);
        }
    }
}

/// Score of a match from its positions: the base minus the byte span from
/// the first matched character to the end of the last, floored at 1.
pub open spec fn score_of(t: Seq<u8>, ps: Seq<usize>) -> int
    recommends
        ps.len() > 0,
{
    let first = ps[0] as int;
    let last = ps[ps.len() - 1] as int;
    let span = last + step_len(t, last) - first;
    if span >= SCORE_BASE {
        1
    } else {
        SCORE_BASE - span
    }
}

/// Result of scoring one candidate: `None` when its fingerprint cannot cover
/// the query or the walk does not consume the whole query.
pub open spec fn candidate_result(c: CandidateView, qo: Seq<u8>, smart: bool) -> Option<
    MatchView,
> {
    let t = encode_utf8(c.text);
    let qf = fold_bytes(qo);
    if !bag_contains_all(c.bag, bag_of(qf)) {
        None
    } else {
        let w = walk(t, qf, qo, smart, 0, 0);
        if qf.len() > 0 && w.1 == qf.len() {
            Some(
                MatchView {
                    id: c.id,
                    score: score_of(t, w.0),
                    positions: w.0.map_values(|p: usize| p as int),
                    text: c.text,
                },
            )
        } else {
            None
        }
    }
}

/// The matches of a shard, in candidate order.
pub open spec fn shard_matches(cands: Seq<CandidateView>, qo: Seq<u8>, smart: bool) -> Seq<
    MatchView,
>
    decreases cands.len(),
{
    if cands.len() == 0 {
        Seq::empty()
    } else {
        let rest = shard_matches(cands.drop_last(), qo, smart);
        match candidate_result(cands.last(), qo, smart) {
            Some(m) => rest.push(m),
            None => rest,
        }
    }
}

/// Matches of back-to-back shards are the matches of each, in order.
pub proof fn lemma_shard_matches_concat(
    xs: Seq<CandidateView>,
    ys: Seq<CandidateView>,
    qo: Seq<u8>,
    smart: bool,
)
    ensures
        shard_matches(xs + ys, qo, smart) == shard_matches(xs, qo, smart) + shard_matches(
            ys,
            qo,
            smart,
        ),
    decreases ys.len(),
{
    if ys.len() == 0 {
        assert(xs + ys =~= xs);
        assert(shard_matches(xs, qo, smart) + shard_matches(ys, qo, smart) =~= shard_matches(
            xs,
            qo,
            smart,
        ));
    } else {
        lemma_shard_matches_concat(xs, ys.drop_last(), qo, smart);
        assert((xs + ys).drop_last() =~= xs + ys.drop_last());
        assert((xs + ys).last() == ys.last());
        match candidate_result(ys.last(), qo, smart) {
            Some(m) => {
                assert(shard_matches(xs, qo, smart) + shard_matches(ys.drop_last(), qo, smart).push(
                    m,
                ) =~= (shard_matches(xs, qo, smart) + shard_matches(
                    ys.drop_last(),
                    qo,
                    smart,
                )).push(m));
            },
            None => {},
        }
    }
}

/// Poll the shared cancellation flag.
pub fn is_cancelled(flag: &AtomicBool) -> bool {
    flag.load(Ordering::Relaxed)
}

/// Case-folded byte-wise equality of `t[ti..ti+l]` against `q[qi..qi+l]`.
fn folded_eq(t: &[u8], ti: usize, q: &[u8], qi: usize, l: usize) -> (r: bool)
    requires
        ti + l <= t@.len(),
        qi + l <= q@.len(),
    ensures
        r == (fold_bytes(t@.subrange(ti as int, ti + l)) == q@.subrange(qi as int, qi + l)),
{
    let tn = t.len();
    let qn = q.len();
    let mut j: usize = 0;
    while j < l
        invariant
            j <= l,
            ti + l <= t@.len() <= usize::MAX,
            qi + l <= q@.len() <= usize::MAX,
            fold_bytes(t@.subrange(ti as int, ti + j)) == q@.subrange(qi as int, qi + j),
        decreases l - j,
    {
        if crate::text::fold_byte_exec(t[ti + j]) != q[qi + j] {
            proof {
                assert(fold_bytes(t@.subrange(ti as int, ti + l))[j as int] == fold_byte(
                    t@[ti + j],
                ));
                assert(q@.subrange(qi as int, qi + l)[j as int] == q@[qi + j]);
            }
            return false;
        }
        proof {
            assert(t@.subrange(ti as int, ti + j + 1) =~= t@.subrange(ti as int, ti + j).push(
                t@[ti + j],
            ));
            assert(q@.subrange(qi as int, qi + j + 1) =~= q@.subrange(qi as int, qi + j).push(
                q@[qi + j],
            ));
            assert(fold_bytes(t@.subrange(ti as int, ti + j + 1)) =~= fold_bytes(
                t@.subrange(ti as int, ti + j),
            ).push(fold_byte(t@[ti + j])));
        }
        j = j + 1;
    }
    true
}

/// Exact byte-wise equality of `t[ti..ti+l]` against `q[qi..qi+l]`.
fn exact_eq(t: &[u8], ti: usize, q: &[u8], qi: usize, l: usize) -> (r: bool)
    requires
        ti + l <= t@.len(),
        qi + l <= q@.len(),
    ensures
        r == (t@.subrange(ti as int, ti + l) == q@.subrange(qi as int, qi + l)),
{
    let tn = t.len();
    let qn = q.len();
    let mut j: usize = 0;
    while j < l
        invariant
            j <= l,
            ti + l <= t@.len() <= usize::MAX,
            qi + l <= q@.len() <= usize::MAX,
            t@.subrange(ti as int, ti + j) == q@.subrange(qi as int, qi + j),
        decreases l - j,
    {
        if t[ti + j] != q[qi + j] {
            proof {
                assert(t@.subrange(ti as int, ti + l)[j as int] == t@[ti + j]);
                assert(q@.subrange(qi as int, qi + l)[j as int] == q@[qi + j]);
            }
            return false;
        }
        proof {
            assert(t@.subrange(ti as int, ti + j + 1) =~= t@.subrange(ti as int, ti + j).push(
                t@[ti + j],
            ));
            assert(q@.subrange(qi as int, qi + j + 1) =~= q@.subrange(qi as int, qi + j).push(
                q@[qi + j],
            ));
        }
        j = j + 1;
    }
    true
}

/// Run the greedy walk over the bytes of one candidate.
fn walk_exec(t: &[u8], qf: &[u8], qo: &[u8], smart: bool) -> (r: (Vec<usize>, usize))
    requires
        qf@.len() == qo@.len(),
    ensures
        r.0@ == walk(t@, qf@, qo@, smart, 0, 0).0,
        r.1 as int == walk(t@, qf@, qo@, smart, 0, 0).1,
{
    let mut ti: usize = 0;
    let mut qi: usize = 0;
    let mut positions: Vec<usize> = Vec::new();
    let ghost w0 = walk(t@, qf@, qo@, smart, 0, 0);
    proof {
        assert(positions@ + w0.0 =~= w0.0);
    }
    while ti < t.len() && qi < qf.len()
        invariant
            qf@.len() == qo@.len(),
            ti <= t@.len(),
            qi <= qf@.len(),
            w0 == walk(t@, qf@, qo@, smart, 0, 0),
            w0.0 == positions@ + walk(t@, qf@, qo@, smart, ti as int, qi as int).0,
            w0.1 == walk(t@, qf@, qo@, smart, ti as int, qi as int).1,
        decreases t@.len() - ti,
    {
        let tl = crate::text::step_len_exec(t, ti);
        let ql = crate::text::step_len_exec(qf, qi);
        let matched = tl == ql && folded_eq(t, ti, qf, qi, tl) && (!smart || !(0x41 <= qo[qi]
            && qo[qi] <= 0x5a) || exact_eq(t, ti, qo, qi, tl));
        proof {
            assert(matched == step_matches(t@, qf@, qo@, smart, ti as int, qi as int));
        }
        if matched {
            positions.push(ti);
            proof {
                let w = walk(t@, qf@, qo@, smart, ti as int, qi as int);
                let wn = walk(t@, qf@, qo@, smart, ti + tl, qi + ql);
                assert(w.0 == seq![ti as usize] + wn.0);
                assert(positions@.push(ti) + wn.0 =~= positions@ + (seq![ti as usize] + wn.0));
            }
            ti = ti + tl;
            qi = qi + ql;
        } else {
            ti = ti + tl;
        }
    }
    proof {
        let w = walk(t@, qf@, qo@, smart, ti as int, qi as int);
        assert(w.0 =~= Seq::<usize>::empty());
        assert(positions@ + w.0 =~= positions@);
    }
    (positions, qi)
}

/// Score a completed match from its positions.
fn score_exec(t: &[u8], positions: &Vec<usize>) -> (r: u64)
    requires
        positions@.len() > 0,
        forall|k: int| 0 <= k < positions@.len() ==> positions@[k] < t@.len(),
        forall|k1: int, k2: int|
            0 <= k1 < k2 < positions@.len() ==> positions@[k1] < positions@[k2],
    ensures
        r as int == score_of(t@, positions@),
{
    let tn = t.len();
    let first = positions[0];
    let last = positions[positions.len() - 1];
    proof {
        if positions@.len() > 1 {
            assert(positions@[0] < positions@[positions@.len() - 1]);
        }
    }
    let l = crate::text::step_len_exec(t, last);
    let span = last + l - first;
    if span >= 1000000 {
        1
    } else {
        SCORE_BASE - (span as u64)
    }
}

/// Score every admissible candidate of one shard, accumulating the best
/// `max_results` results in sorted order. Whatever the cancellation flag
/// reads, the accumulator equals the fold over some prefix of the shard: the
/// whole shard when no poll observed a cancellation.
pub fn match_candidates(
    candidates: &[StringMatchCandidate],
    query: &[u8],
    lowercase_query: &[u8],
    query_char_bag: CharBag,
    smart_case: bool,
    max_results: usize,
    cancel_flag: &AtomicBool,
    results: &mut Vec<StringMatch>,
)
    requires
        old(results)@.len() == 0,
        lowercase_query@ == fold_bytes(query@),
        query_char_bag.0 == bag_of(lowercase_query@),
        query@.len() > 0,
        max_results >= 1,
    ensures
        exists|k: int|
            0 <= k <= candidates@.len() && views_of(final(results)@) == cap_fold(
                shard_matches(candidate_views(candidates@).take(k), query@, smart_case),
                max_results as int,
            ),
        final(results)@.len() <= max_results,
        crate::matches::sorted(views_of(final(results)@)),
{
    let ghost qo = query@;
    let ghost cvs = candidate_views(candidates@);
    let mut i: usize = 0;
    let mut cancelled = false;
    proof {
        assert(cvs.take(0) =~= Seq::<CandidateView>::empty());
        assert(views_of(results@) =~= Seq::<MatchView>::empty());
        crate::merge::lemma_cap_fold_props(
            shard_matches(cvs.take(0), qo, smart_case),
            max_results as int,
        );
    }
    while i < candidates.len() && !cancelled
        invariant
            lowercase_query@ == fold_bytes(query@),
            query_char_bag.0 == bag_of(lowercase_query@),
            query@.len() > 0,
            max_results >= 1,
            qo == query@,
            cvs == candidate_views(candidates@),
            i <= candidates@.len(),
            views_of(results@) == cap_fold(
                shard_matches(cvs.take(i as int), qo, smart_case),
                max_results as int,
            ),
            results@.len() <= max_results,
        decreases
                candidates@.len() - i,
                (if cancelled {
                    0int
                } else {
                    1int
                }),
    {
        if is_cancelled(cancel_flag) {
            cancelled = true;
        } else {
            let ghost pre = shard_matches(cvs.take(i as int), qo, smart_case);
            let cand = &candidates[i];
            proof {
                assert(cvs[i as int] == candidates@[i as int]@);
                assert(cvs.take(i + 1).drop_last() =~= cvs.take(i as int));
                assert(cvs.take(i + 1).last() == cvs[i as int]);
            }
            let admissible = cand.has_chars(query_char_bag);
            if admissible {
                let t: &[u8] = cand.string.as_str().as_bytes();
                let tn = t.len();
                let (positions, reached) = walk_exec(t, lowercase_query, query, smart_case);
                proof {
                    assert(t@.len() == tn as int);
                    lemma_walk_positions(t@, lowercase_query@, query@, smart_case, 0, 0);
                }
                if reached == lowercase_query.len() {
                    let score = score_exec(t, &positions);
                    let m = StringMatch {
                        candidate_id: cand.id,
                        score,
                        positions,
                        string: cand.string.clone(),
                    };
                    proof {
                        let w = walk(t@, lowercase_query@, qo, smart_case, 0, 0);
                        assert(candidate_result(cvs[i as int], qo, smart_case) == Some(m@));
                        assert(shard_matches(cvs.take(i + 1), qo, smart_case) == pre.push(m@));
                        assert(pre.push(m@).drop_last() =~= pre);
                        assert(pre.push(m@).last() == m@);
                    }
                    crate::merge::insert_capped(results, m, max_results);
                } else {
                    proof {
                        assert(candidate_result(cvs[i as int], qo, smart_case) is None);
                        assert(shard_matches(cvs.take(i + 1), qo, smart_case) == pre);
                    }
                }
            } else {
                proof {
                    assert(candidate_result(cvs[i as int], qo, smart_case) is None);
                    assert(shard_matches(cvs.take(i + 1), qo, smart_case) == pre);
                }
            }
            i = i + 1;
        }
    }
    proof {
        let k = i as int;
        assert(0 <= k <= candidates@.len() && views_of(results@) == cap_fold(
            shard_matches(candidate_views(candidates@).take(k), query@, smart_case),
            max_results as int,
        ));
        crate::merge::lemma_cap_fold_props(
            shard_matches(cvs.take(k), qo, smart_case),
            max_results as int,
        );
    }
}

} // verus!
