//! Proved statements about the library as a whole: the sharded pass ranks
//! exactly as the synchronous pass, the merge is stable and respects the
//! cap, and the empty-query branch returns everything in input order.

use vstd::prelude::*;
use crate::matches::{sorted, CandidateView, MatchView};
use crate::merge::{
    cap_fold, isort, lemma_cap_fold_isort, lemma_smerge_cap_left, lemma_smerge_cap_right,
    lemma_smerge_isort, smerge, take_cap,
};
use crate::scorer::{lemma_shard_matches_concat, shard_matches};
use crate::strings::{empty_query_views, merged_chunks, merged_chunks_upto, sync_views};

verus! {

/// Accumulator form of the sharding law: merging each chunk's capped
/// results into an accumulator that is itself a capped fold yields the
/// capped fold of everything seen so far.
proof fn lemma_merged_chunks_general(
    cands: Seq<CandidateView>,
    qo: Seq<u8>,
    smart: bool,
    cap: int,
    size: int,
    ms: Seq<MatchView>,
)
    requires
        cap >= 0,
        size >= 1,
    ensures
        merged_chunks(cands, qo, smart, cap, size, cap_fold(ms, cap)) == cap_fold(
            ms + shard_matches(cands, qo, smart),
            cap,
        ),
    decreases cands.len(),
{
    if cands.len() == 0 {
        assert(ms + shard_matches(cands, qo, smart) =~= ms);
    } else {
        let seg = if cands.len() <= size {
            cands
        } else {
            cands.take(size)
        };
        let rest = if cands.len() <= size {
            Seq::<CandidateView>::empty()
        } else {
            cands.skip(size)
        };
        let sm_seg = shard_matches(seg, qo, smart);
        let acc2 = take_cap(smerge(cap_fold(ms, cap), cap_fold(sm_seg, cap)), cap);
        lemma_cap_fold_isort(ms, cap);
        lemma_cap_fold_isort(sm_seg, cap);
        lemma_smerge_cap_left(isort(ms), take_cap(isort(sm_seg), cap), cap);
        lemma_smerge_cap_right(isort(ms), isort(sm_seg), cap);
        lemma_smerge_isort(ms, sm_seg);
        lemma_cap_fold_isort(ms + sm_seg, cap);
        assert(acc2 == cap_fold(ms + sm_seg, cap));
        lemma_merged_chunks_general(rest, qo, smart, cap, size, ms + sm_seg);
        lemma_shard_matches_concat(seg, rest, qo, smart);
        assert(seg + rest =~= cands);
        assert((ms + sm_seg) + shard_matches(rest, qo, smart) =~= ms + (sm_seg + shard_matches(
            rest,
            qo,
            smart,
        )));
    }
}

/// Shard boundaries do not affect the final ranking: splitting the
/// candidates into chunks of any size, scoring each chunk on its own and
/// merging the capped per-chunk results in order gives exactly the result
/// of one scoring pass over the whole candidate sequence.
pub proof fn lemma_sharding_transparent(
    cands: Seq<CandidateView>,
    qo: Seq<u8>,
    smart: bool,
    cap: int,
    size: int,
)
    requires
        cap >= 0,
        size >= 1,
    ensures
        merged_chunks(cands, qo, smart, cap, size, Seq::empty()) == sync_views(
            cands,
            qo,
            smart,
            cap,
        ),
{
    let ms0 = Seq::<MatchView>::empty();
    assert(cap_fold(ms0, cap) == Seq::<MatchView>::empty());
    lemma_merged_chunks_general(cands, qo, smart, cap, size, ms0);
    assert(ms0 + shard_matches(cands, qo, smart) =~= shard_matches(cands, qo, smart));
}

/// A sharded run in which every chunk was scored completely — no poll of
/// the cancellation flag ever observed a cancellation — is the sharded pass
/// itself, and hence (by `lemma_sharding_transparent`) the synchronous
/// ranking.
pub proof fn lemma_uncancelled_run(
    cands: Seq<CandidateView>,
    qo: Seq<u8>,
    smart: bool,
    cap: int,
    size: int,
    ks: Seq<int>,
    acc: Seq<MatchView>,
)
    requires
        size >= 1,
        forall|i: int| 0 <= i < ks.len() ==> ks[i] >= size,
        ks.len() * size >= cands.len(),
    ensures
        merged_chunks_upto(cands, qo, smart, cap, size, ks, acc) == merged_chunks(
            cands,
            qo,
            smart,
            cap,
            size,
            acc,
        ),
    decreases cands.len(),
{
    if cands.len() == 0 {
    } else {
        assert(ks.len() > 0) by (nonlinear_arith)
            requires
                ks.len() * size >= cands.len(),
                cands.len() > 0,
                size >= 1,
        ;
        let seg = if cands.len() <= size {
            cands
        } else {
            cands.take(size)
        };
        let rest = if cands.len() <= size {
            Seq::<CandidateView>::empty()
        } else {
            cands.skip(size)
        };
        let seg_used = if 0 <= ks[0] <= seg.len() {
            seg.take(ks[0])
        } else {
            seg
        };
        assert(seg_used == seg) by {
            if 0 <= ks[0] <= seg.len() {
                assert(ks[0] == seg.len());
                assert(seg.take(seg.len() as int) =~= seg);
            }
        }
        assert forall|i: int| 0 <= i < ks.skip(1).len() implies ks.skip(1)[i] >= size by {
            assert(ks.skip(1)[i] == ks[i + 1]);
        }
        assert(ks.skip(1).len() * size >= rest.len()) by (nonlinear_arith)
            requires
                ks.skip(1).len() == ks.len() - 1,
                ks.len() >= 1,
                size >= 1,
                ks.len() * size >= cands.len(),
                rest.len() == (if cands.len() <= size {
                    0int
                } else {
                    cands.len() - size
                }),
        ;
        lemma_uncancelled_run(
            rest,
            qo,
            smart,
            cap,
            size,
            ks.skip(1),
            take_cap(smerge(acc, cap_fold(shard_matches(seg, qo, smart), cap)), cap),
        );
    }
}

/// The merge is stable with respect to the tie-break: in any sorted result
/// sequence, two results with equal score stand in ascending order of
/// candidate identifier, no matter which shard each came from.
pub proof fn lemma_equal_scores_order_by_id(s: Seq<MatchView>, i: int, j: int)
    requires
        sorted(s),
        0 <= i < j < s.len(),
        s[i].score == s[j].score,
    ensures
        s[i].id <= s[j].id,
{
    assert(crate::matches::ord_le(s[i], s[j]));
}

/// No merge step produces more than `cap` results.
pub proof fn lemma_merge_respects_cap(a: Seq<MatchView>, b: Seq<MatchView>, cap: int)
    requires
        cap >= 0,
    ensures
        take_cap(smerge(a, b), cap).len() <= cap,
{
}

/// The cheap pre-filter is sound: for a candidate whose fingerprint was
/// derived from its own text — as `StringMatchCandidate::new` derives it —
/// a full match of the query implies that the fingerprint covers the
/// query's fingerprint, so skipping candidates that fail the superset test
/// never loses a match.
pub proof fn lemma_prefilter_sound(text: Seq<char>, qo: Seq<u8>, smart: bool)
    ensures
        ({
            let t = vstd::utf8::encode_utf8(text);
            let qf = crate::text::fold_bytes(qo);
            crate::scorer::walk(t, qf, qo, smart, 0, 0).1 == qf.len()
                ==> crate::char_bag::bag_contains_all(
                crate::char_bag::bag_of(crate::text::fold_bytes(t)),
                crate::char_bag::bag_of(qf),
            )
        }),
{
    let t = vstd::utf8::encode_utf8(text);
    let qf = crate::text::fold_bytes(qo);
    let ft = crate::text::fold_bytes(t);
    if crate::scorer::walk(t, qf, qo, smart, 0, 0).1 == qf.len() {
        crate::scorer::lemma_walk_covers_query(t, qf, qo, smart, 0, 0);
        assert forall|j: int|
            0 <= j < qf.len() implies crate::char_bag::bag_of(ft) & (1u64
                << crate::char_bag::bucket(qf[j])) == (1u64 << #[trigger] crate::char_bag::bucket(
                qf[j],
            )) by {
            assert(crate::char_bag::byte_in(ft, qf[j]));
            crate::char_bag::lemma_bag_of_member(ft, qf[j]);
        }
        crate::char_bag::lemma_bag_superset_from_members(crate::char_bag::bag_of(ft), qf);
    }
}

/// A scored match always has at least one matched position: `positions` is
/// empty only on results of the empty-query branch.
pub proof fn lemma_match_positions_nonempty(c: CandidateView, qo: Seq<u8>, smart: bool)
    requires
        vstd::utf8::encode_utf8(c.text).len() <= usize::MAX,
    ensures
        crate::scorer::candidate_result(c, qo, smart) matches Some(m) ==> m.positions.len() > 0,
{
    let t = vstd::utf8::encode_utf8(c.text);
    let qf = crate::text::fold_bytes(qo);
    crate::scorer::lemma_walk_positions(t, qf, qo, smart, 0, 0);
}

/// The empty-query branch keeps the input length and order, gives every
/// result score 0 and no positions, and applies no cap.
pub proof fn lemma_empty_query_results(cands: Seq<CandidateView>)
    ensures
        empty_query_views(cands).len() == cands.len(),
        forall|i: int|
            0 <= i < cands.len() ==> (#[trigger] empty_query_views(cands)[i]).id == cands[i].id
                && empty_query_views(cands)[i].score == 0 && empty_query_views(
                cands,
            )[i].positions.len() == 0 && empty_query_views(cands)[i].text == cands[i].text,
{
}

} // verus!
