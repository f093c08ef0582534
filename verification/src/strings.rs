//! The caller-facing entry points.
//!
//! Both validate the degenerate inputs first: an empty candidate set or a
//! result cap of zero yields an empty result list, and an empty query makes
//! every candidate a trivial match with score 0, returned in input order
//! with the cap deliberately ignored. Otherwise the synchronous entry point
//! scores all candidates in one pass, while the sharded entry point splits
//! the candidates into contiguous segments of equal size, scores each
//! segment independently, and merges the per-segment top lists in order,
//! truncating after every merge — which, as proved in [`crate::laws`],
//! yields exactly the synchronous ranking.

use vstd::prelude::*;
use vstd::utf8::encode_utf8;
use core::sync::atomic::AtomicBool;
use crate::char_bag::CharBag;
use crate::matches::{
    candidate_views, sorted, views_of, CandidateView, MatchView, StringMatch,
    StringMatchCandidate,
};
use crate::merge::{cap_fold, extend_sorted, smerge, take_cap};
use crate::scorer::{match_candidates, shard_matches};

verus! {

/// View of the empty-query result list: every candidate as a trivial match
/// with score 0 and no positions, in input order.
pub open spec fn empty_query_views(cands: Seq<CandidateView>) -> Seq<MatchView> {
    cands.map_values(
        |c: CandidateView|
            MatchView { id: c.id, score: 0, positions: Seq::empty(), text: c.text },
    )
}

/// Results of one scoring pass over `cands`, capped to `cap`.
pub open spec fn sync_views(cands: Seq<CandidateView>, qo: Seq<u8>, smart: bool, cap: int) -> Seq<
    MatchView,
> {
    cap_fold(shard_matches(cands, qo, smart), cap)
}

/// The sharded pass: split `cands` into chunks of `size`, score each chunk,
/// and merge each chunk's capped results into the accumulator in order,
/// truncating to `cap` after every merge.
pub open spec fn merged_chunks(
    cands: Seq<CandidateView>,
    qo: Seq<u8>,
    smart: bool,
    cap: int,
    size: int,
    acc: Seq<MatchView>,
) -> Seq<MatchView>
    recommends
        size >= 1,
    decreases cands.len(),
{
    if cands.len() == 0 || size < 1 {
        acc
    } else {
        let seg = if cands.len() <= size {
            cands
        } else {
            cands.take(size)
        };
        let rest = if cands.len() <= size {
            Seq::<CandidateView>::empty()
        } else {
            cands.skip(size)
        };
        merged_chunks(
            rest,
            qo,
            smart,
            cap,
            size,
            take_cap(smerge(acc, cap_fold(shard_matches(seg, qo, smart), cap)), cap),
        )
    }
}

/// The sharded pass where each chunk was scored only up to its element
/// `ks[i]`: the shape a cancelled run takes. A bound at or past the chunk's
/// length means the chunk was scored completely.
pub open spec fn merged_chunks_upto(
    cands: Seq<CandidateView>,
    qo: Seq<u8>,
    smart: bool,
    cap: int,
    size: int,
    ks: Seq<int>,
    acc: Seq<MatchView>,
) -> Seq<MatchView>
    recommends
        size >= 1,
    decreases cands.len(),
{
    if cands.len() == 0 || size < 1 || ks.len() == 0 {
        acc
    } else {
        let seg = if cands.len() <= size {
            cands
        } else {
            cands.take(size)
        };
        let rest = if cands.len() <= size {
            Seq::<CandidateView>::empty()
        } else {
            cands.skip(size)
        };
        let seg_used = if 0 <= ks[0] <= seg.len() {
            seg.take(ks[0])
        } else {
            seg
        };
        merged_chunks_upto(
            rest,
            qo,
            smart,
            cap,
            size,
            ks.skip(1),
            take_cap(smerge(acc, cap_fold(shard_matches(seg_used, qo, smart), cap)), cap),
        )
    }
}

/// Size of each contiguous shard: the candidate count divided by the shard
/// count, rounded up.
pub open spec fn shard_size(len: int, workers: int) -> int
    recommends
        len >= 1,
        workers >= 1,
{
    let count = if workers <= len {
        workers
    } else {
        len
    };
    len / count + (if len % count > 0 {
        1int
    } else {
        0int
    })
}

/// Build the trivial match for `candidate` with the given score and no
/// matched positions.
fn scored_candidate_to_string_match(candidate: &StringMatchCandidate, score: u64) -> (m:
    StringMatch)
    ensures
        m@ == (MatchView {
            id: candidate@.id,
            score: score as int,
            positions: Seq::empty(),
            text: candidate@.text,
        }),
{
    let positions: Vec<usize> = Vec::new();
    proof {
        assert(positions@.map_values(|p: usize| p as int) =~= Seq::<int>::empty());
    }
    StringMatch {
        candidate_id: candidate.id,
        score,
        positions,
        string: candidate.string.clone(),
    }
}

/// The empty-query branch: every candidate becomes a trivial match, in
/// input order, with no cap applied.
fn empty_query_results(candidates: &[StringMatchCandidate]) -> (results: Vec<StringMatch>)
    ensures
        views_of(results@) == empty_query_views(candidate_views(candidates@)),
        results@.len() == candidates@.len(),
{
    let ghost target = empty_query_views(candidate_views(candidates@));
    let mut out: Vec<StringMatch> = Vec::with_capacity(candidates.len());
    let mut i: usize = 0;
    proof {
        assert(views_of(out@) =~= target.take(0));
    }
    while i < candidates.len()
        invariant
            i <= candidates@.len(),
            out@.len() == i,
            target == empty_query_views(candidate_views(candidates@)),
            views_of(out@) == target.take(i as int),
        decreases candidates@.len() - i,
    {
        let m = scored_candidate_to_string_match(&candidates[i], 0);
        proof {
            assert(candidate_views(candidates@)[i as int] == candidates@[i as int]@);
            assert(target[i as int] == m@);
            assert(views_of(out@.push(m)) =~= views_of(out@).push(m@));
            assert(target.take(i + 1) =~= target.take(i as int).push(target[i as int]));
        }
        out.push(m);
        i = i + 1;
    }
    proof {
        assert(target.take(candidates@.len() as int) =~= target);
    }
    out
}

/// A nonempty character sequence has a nonempty UTF-8 encoding.
proof fn lemma_encode_nonempty(s: Seq<char>)
    requires
        s.len() > 0,
    ensures
        encode_utf8(s).len() > 0,
{
    assert(encode_utf8(s) == vstd::utf8::encode_scalar(s[0] as u32) + encode_utf8(
        s.drop_first(),
    ));
}

/// Score all candidates in one pass and return the best `max_results`
/// matches, best first. An empty candidate set or a zero cap returns
/// nothing; an empty query returns every candidate as a trivial match in
/// input order. Otherwise the results are the capped fold over some prefix
/// of the candidates — the whole set unless a poll of `cancel_flag`
/// observed a cancellation — sorted by descending score with ties broken by
/// ascending identifier.
pub fn match_strings_synchronously(
    candidates: &[StringMatchCandidate],
    query: &str,
    smart_case: bool,
    max_results: usize,
    cancel_flag: &AtomicBool,
) -> (results: Vec<StringMatch>)
    ensures
        (candidates@.len() == 0 || max_results == 0) ==> results@.len() == 0,
        (candidates@.len() > 0 && max_results > 0 && query@.len() == 0) ==> views_of(results@)
            == empty_query_views(candidate_views(candidates@)) && results@.len()
            == candidates@.len(),
        (candidates@.len() > 0 && max_results > 0 && query@.len() > 0) ==> exists|k: int|
            0 <= k <= candidates@.len() && views_of(results@) == sync_views(
                candidate_views(candidates@).take(k),
                encode_utf8(query@),
                smart_case,
                max_results as int,
            ),
        (candidates@.len() > 0 && max_results > 0 && query@.len() > 0) ==> results@.len()
            <= max_results && sorted(views_of(results@)),
{
    if candidates.len() == 0 || max_results == 0 {
        return Vec::new();
    }
    if query.is_empty() {
        return empty_query_results(candidates);
    }
    let query_bytes: &[u8] = query.as_bytes();
    proof {
        lemma_encode_nonempty(query@);
    }
    let lowercase_query = crate::text::fold_bytes_exec(query_bytes);
    let query_char_bag = CharBag::from_folded_bytes(lowercase_query.as_slice());
    let cap_hint = if max_results < candidates.len() {
        max_results
    } else {
        candidates.len()
    };
    let mut results: Vec<StringMatch> = Vec::with_capacity(cap_hint);
    match_candidates(
        candidates,
        query_bytes,
        lowercase_query.as_slice(),
        query_char_bag,
        smart_case,
        max_results,
        cancel_flag,
        &mut results,
    );
    results
}

/// Score one contiguous segment per step, merging each segment's capped
/// results into the accumulator.
fn match_shards(
    candidates: &[StringMatchCandidate],
    from: usize,
    segment_size: usize,
    query: &[u8],
    lowercase_query: &[u8],
    query_char_bag: CharBag,
    smart_case: bool,
    max_results: usize,
    cancel_flag: &AtomicBool,
    acc: Vec<StringMatch>,
) -> (results: Vec<StringMatch>)
    requires
        from <= candidates@.len(),
        segment_size >= 1,
        lowercase_query@ == crate::text::fold_bytes(query@),
        query_char_bag.0 == crate::char_bag::bag_of(lowercase_query@),
        query@.len() > 0,
        max_results >= 1,
        acc@.len() <= max_results,
        sorted(views_of(acc@)),
    ensures
        exists|ks: Seq<int>|
            views_of(results@) == merged_chunks_upto(
                candidate_views(candidates@).skip(from as int),
                query@,
                smart_case,
                max_results as int,
                segment_size as int,
                ks,
                views_of(acc@),
            ),
        results@.len() <= max_results,
        sorted(views_of(results@)),
    decreases candidates@.len() - from,
{
    let ghost cvs = candidate_views(candidates@);
    let ghost qo = query@;
    let ghost cap = max_results as int;
    if from >= candidates.len() {
        proof {
            let ks_none: Seq<int> = Seq::empty();
            assert(cvs.skip(from as int) =~= Seq::<CandidateView>::empty());
            assert(views_of(acc@) == merged_chunks_upto(
                cvs.skip(from as int),
                qo,
                smart_case,
                cap,
                segment_size as int,
                ks_none,
                views_of(acc@),
            ));
        }
        return acc;
    }
    let remaining = candidates.len() - from;
    let end = if remaining <= segment_size {
        candidates.len()
    } else {
        from + segment_size
    };
    let segment: &[StringMatchCandidate] = &candidates[from..end];
    let ghost rem = cvs.skip(from as int);
    let ghost seg = if rem.len() <= segment_size as int {
        rem
    } else {
        rem.take(segment_size as int)
    };
    let ghost rest = if rem.len() <= segment_size as int {
        Seq::<CandidateView>::empty()
    } else {
        rem.skip(segment_size as int)
    };
    proof {
        assert(candidate_views(segment@) =~= seg);
        assert(cvs.skip(end as int) =~= rest);
    }
    let mut segment_results: Vec<StringMatch> = Vec::new();
    match_candidates(
        segment,
        query,
        lowercase_query,
        query_char_bag,
        smart_case,
        max_results,
        cancel_flag,
        &mut segment_results,
    );
    let ghost k0 = choose|k: int|
        0 <= k <= segment@.len() && views_of(segment_results@) == cap_fold(
            shard_matches(candidate_views(segment@).take(k), query@, smart_case),
            max_results as int,
        );
    let mut acc = acc;
    let ghost acc0 = views_of(acc@);
    if acc.len() == 0 {
        proof {
            assert(acc0 =~= Seq::<MatchView>::empty());
            assert(smerge(acc0, views_of(segment_results@)) == views_of(segment_results@));
        }
        acc = segment_results;
    } else {
        extend_sorted(&mut acc, segment_results, max_results);
    }
    proof {
        let seg_used = seg.take(k0);
        assert(seg_used == candidate_views(segment@).take(k0));
        assert(views_of(acc@) == take_cap(
            smerge(acc0, cap_fold(shard_matches(seg_used, qo, smart_case), cap)),
            cap,
        ));
        crate::merge::lemma_cap_fold_props(shard_matches(seg_used, qo, smart_case), cap);
        crate::merge::lemma_smerge_sorted(
            acc0,
            cap_fold(shard_matches(seg_used, qo, smart_case), cap),
        );
        crate::merge::lemma_take_cap_sorted(
            smerge(acc0, cap_fold(shard_matches(seg_used, qo, smart_case), cap)),
            cap,
        );
        crate::merge::lemma_smerge_len(
            acc0,
            cap_fold(shard_matches(seg_used, qo, smart_case), cap),
        );
    }
    let results = match_shards(
        candidates,
        end,
        segment_size,
        query,
        lowercase_query,
        query_char_bag,
        smart_case,
        max_results,
        cancel_flag,
        acc,
    );
    proof {
        let ks_rest = choose|ks: Seq<int>|
            views_of(results@) == merged_chunks_upto(
                cvs.skip(end as int),
                qo,
                smart_case,
                cap,
                segment_size as int,
                ks,
                views_of(acc@),
            );
        let ks_all = seq![k0] + ks_rest;
        assert(ks_all[0] == k0);
        assert(ks_all.skip(1) =~= ks_rest);
        assert(views_of(results@) == merged_chunks_upto(
            rem,
            qo,
            smart_case,
            cap,
            segment_size as int,
            ks_all,
            acc0,
        ));
    }
    results
}

/// Shard the candidates over the available workers and return the globally
/// best `max_results` matches, best first. Shares the degenerate branches of
/// [`match_strings_synchronously`]; otherwise the candidates are split into
/// contiguous segments of `shard_size` candidates, each segment is scored on
/// its own — over a prefix only where the cancellation flag was observed
/// set — and the per-segment top lists are merged in segment order,
/// truncating to the cap after each merge.
pub fn match_strings(
    candidates: &[StringMatchCandidate],
    query: &str,
    smart_case: bool,
    max_results: usize,
    cancel_flag: &AtomicBool,
    available_workers: usize,
) -> (results: Vec<StringMatch>)
    requires
        available_workers >= 1,
    ensures
        (candidates@.len() == 0 || max_results == 0) ==> results@.len() == 0,
        (candidates@.len() > 0 && max_results > 0 && query@.len() == 0) ==> views_of(results@)
            == empty_query_views(candidate_views(candidates@)) && results@.len()
            == candidates@.len(),
        (candidates@.len() > 0 && max_results > 0 && query@.len() > 0) ==> exists|ks: Seq<int>|
            views_of(results@) == merged_chunks_upto(
                candidate_views(candidates@),
                encode_utf8(query@),
                smart_case,
                max_results as int,
                shard_size(candidates@.len() as int, available_workers as int),
                ks,
                Seq::empty(),
            ),
        (candidates@.len() > 0 && max_results > 0 && query@.len() > 0) ==> results@.len()
            <= max_results && sorted(views_of(results@)),
{
    if candidates.len() == 0 || max_results == 0 {
        return Vec::new();
    }
    if query.is_empty() {
        return empty_query_results(candidates);
    }
    let query_bytes: &[u8] = query.as_bytes();
    proof {
        lemma_encode_nonempty(query@);
    }
    let lowercase_query = crate::text::fold_bytes_exec(query_bytes);
    let query_char_bag = CharBag::from_folded_bytes(lowercase_query.as_slice());
    let len = candidates.len();
    let shard_count = if available_workers < len {
        available_workers
    } else {
        len
    };
    proof {
        let qi = len as int / shard_count as int;
        let ri = len as int % shard_count as int;
        vstd::arithmetic::div_mod::lemma_fundamental_div_mod(len as int, shard_count as int);
        vstd::arithmetic::div_mod::lemma_mod_bound(len as int, shard_count as int);
        assert(qi <= len && (ri > 0 ==> qi + 1 <= len) && qi >= 1) by (nonlinear_arith)
            requires
                len as int == shard_count as int * qi + ri,
                0 <= ri < shard_count as int,
                shard_count >= 1,
                len >= shard_count,
        ;
    }
    let quotient = len / shard_count;
    let segment_size = if len % shard_count > 0 {
        quotient + 1
    } else {
        quotient
    };
    proof {
        assert(segment_size as int == shard_size(len as int, available_workers as int));
        assert(segment_size >= 1);
    }
    let empty_acc: Vec<StringMatch> = Vec::new();
    proof {
        assert(views_of(empty_acc@) =~= Seq::<MatchView>::empty());
    }
    let results = match_shards(
        candidates,
        0,
        segment_size,
        query_bytes,
        lowercase_query.as_slice(),
        query_char_bag,
        smart_case,
        max_results,
        cancel_flag,
        empty_acc,
    );
    proof {
        assert(candidate_views(candidates@).skip(0) =~= candidate_views(candidates@));
    }
    results
}

} // verus!
