//! Stable bounded insertion and the order-preserving merge of sorted result
//! lists, together with the algebra connecting them: folding results one by
//! one under a cap is the same as sorting everything stably and keeping the
//! first `cap` elements, and merging two such lists commutes with that
//! description. These facts are what make shard boundaries invisible in the
//! final ranking.

use vstd::prelude::*;
use crate::matches::{sorts_before, ord_le, sorted, views_of, MatchView, StringMatch};

verus! {

/// The first `cap` elements of `s`, or all of `s` when it is shorter.
pub open spec fn take_cap(s: Seq<MatchView>, cap: int) -> Seq<MatchView>
    recommends
        cap >= 0,
{
    if s.len() <= cap {
        s
    } else {
        s.take(cap)
    }
}

/// Index at which `m` is stably inserted into `s`: after every element that
/// does not sort strictly after `m`, so later arrivals land after equals.
pub open spec fn insert_pos(s: Seq<MatchView>, m: MatchView) -> int
    decreases s.len(),
{
    if s.len() == 0 {
        0
    } else if sorts_before(m, s[0]) {
        0
    } else {
        1 + insert_pos(s.skip(1), m)
    }
}

/// Stable insertion of `m` into `s`.
pub open spec fn sinsert(s: Seq<MatchView>, m: MatchView) -> Seq<MatchView> {
    s.insert(insert_pos(s, m), m)
}

/// Stable insertion sort: elements are inserted in arrival order.
pub open spec fn isort(ms: Seq<MatchView>) -> Seq<MatchView>
    decreases ms.len(),
{
    if ms.len() == 0 {
        Seq::empty()
    } else {
        sinsert(isort(ms.drop_last()), ms.last())
    }
}

/// Folding results one by one, truncating to `cap` after every insertion:
/// the accumulator a scorer maintains while it walks its shard.
pub open spec fn cap_fold(ms: Seq<MatchView>, cap: int) -> Seq<MatchView>
    decreases ms.len(),
{
    if ms.len() == 0 {
        Seq::empty()
    } else {
        take_cap(sinsert(cap_fold(ms.drop_last(), cap), ms.last()), cap)
    }
}

/// Stable merge of two sequences: on ties the left sequence wins, so results
/// of earlier shards stay ahead of equal results of later shards.
pub open spec fn smerge(a: Seq<MatchView>, b: Seq<MatchView>) -> Seq<MatchView>
    decreases a.len() + b.len(),
{
    if a.len() == 0 {
        b
    } else if b.len() == 0 {
        a
    } else if sorts_before(b[0], a[0]) {
        seq![b[0]] + smerge(a, b.skip(1))
    } else {
        seq![a[0]] + smerge(a.skip(1), b)
    }
}

pub proof fn lemma_smerge_len(a: Seq<MatchView>, b: Seq<MatchView>)
    ensures
        smerge(a, b).len() == a.len() + b.len(),
    decreases a.len() + b.len(),
{
    if a.len() == 0 {
    } else if b.len() == 0 {
    } else if sorts_before(b[0], a[0]) {
        lemma_smerge_len(a, b.skip(1));
    } else {
        lemma_smerge_len(a.skip(1), b);
    }
}

/// The insertion index is in bounds, everything before it does not sort
/// after `m`, and the element at it (if any) does.
pub proof fn lemma_insert_pos_props(s: Seq<MatchView>, m: MatchView)
    ensures
        0 <= insert_pos(s, m) <= s.len(),
        forall|k: int| 0 <= k < insert_pos(s, m) ==> !sorts_before(m, s[k]),
        insert_pos(s, m) < s.len() ==> sorts_before(m, s[insert_pos(s, m)]),
    decreases s.len(),
{
    if s.len() == 0 {
    } else if sorts_before(m, s[0]) {
    } else {
        lemma_insert_pos_props(s.skip(1), m);
        let p = insert_pos(s, m);
        assert forall|k: int| 0 <= k < p implies !sorts_before(m, s[k]) by {
            if k >= 1 {
                assert(s.skip(1)[k - 1] == s[k]);
            }
        }
        if p < s.len() {
            assert(s.skip(1)[p - 1] == s[p]);
        }
    }
}

/// Any index with the properties of `lemma_insert_pos_props` is the
/// insertion index.
pub proof fn lemma_insert_pos_eq(s: Seq<MatchView>, m: MatchView, p: int)
    requires
        0 <= p <= s.len(),
        forall|k: int| 0 <= k < p ==> !sorts_before(m, s[k]),
        p < s.len() ==> sorts_before(m, s[p]),
    ensures
        insert_pos(s, m) == p,
    decreases s.len(),
{
    if s.len() == 0 {
    } else if sorts_before(m, s[0]) {
        if p > 0 {
            assert(!sorts_before(m, s[0]));
        }
    } else {
        assert(p >= 1);
        assert forall|k: int| 0 <= k < p - 1 implies !sorts_before(m, s.skip(1)[k]) by {
            assert(s.skip(1)[k] == s[k + 1]);
        }
        if p - 1 < s.skip(1).len() {
            assert(s.skip(1)[p - 1] == s[p]);
        }
        lemma_insert_pos_eq(s.skip(1), m, p - 1);
    }
}

/// When `m` sorts before the head, insertion puts it in front.
pub proof fn lemma_sinsert_head(s: Seq<MatchView>, m: MatchView)
    requires
        s.len() == 0 || sorts_before(m, s[0]),
    ensures
        sinsert(s, m) == seq![m] + s,
{
    assert(insert_pos(s, m) == 0);
    assert(s.insert(0, m) =~= seq![m] + s);
}

/// When `m` does not sort before the head, insertion keeps the head and
/// recurses into the tail.
pub proof fn lemma_sinsert_tail(s: Seq<MatchView>, m: MatchView)
    requires
        s.len() > 0,
        !sorts_before(m, s[0]),
    ensures
        sinsert(s, m) == seq![s[0]] + sinsert(s.skip(1), m),
{
    lemma_insert_pos_props(s.skip(1), m);
    let p = insert_pos(s.skip(1), m);
    assert(insert_pos(s, m) == 1 + p);
    assert(s.insert(1 + p, m) =~= seq![s[0]] + s.skip(1).insert(p, m));
}

/// Merging a singleton is stable insertion.
pub proof fn lemma_smerge_single(a: Seq<MatchView>, m: MatchView)
    ensures
        smerge(a, seq![m]) == sinsert(a, m),
    decreases a.len(),
{
    let s = seq![m];
    if a.len() == 0 {
        assert(a.insert(0, m) =~= seq![m]);
    } else if sorts_before(m, a[0]) {
        assert(s.skip(1) =~= Seq::<MatchView>::empty());
        assert(smerge(a, s.skip(1)) == a);
        lemma_sinsert_head(a, m);
    } else {
        assert(smerge(a, s) == seq![a[0]] + smerge(a.skip(1), s));
        lemma_smerge_single(a.skip(1), m);
        lemma_sinsert_tail(a, m);
    }
}

/// Merging after a stable insertion is a stable insertion into the merge.
pub proof fn lemma_smerge_sinsert(a: Seq<MatchView>, b: Seq<MatchView>, m: MatchView)
    ensures
        smerge(a, sinsert(b, m)) == sinsert(smerge(a, b), m),
    decreases a.len() + b.len(),
{
    if a.len() == 0 {
    } else if b.len() == 0 {
        assert(sinsert(b, m) =~= b.insert(0, m));
        assert(b.insert(0, m) =~= seq![m]);
        lemma_smerge_single(a, m);
    } else {
        let a0 = a[0];
        let b0 = b[0];
        lemma_smerge_len(a, b);
        if sorts_before(m, b0) {
            lemma_sinsert_head(b, m);
            let bm = sinsert(b, m);
            assert(bm == seq![m] + b);
            assert(bm[0] == m);
            assert(bm.skip(1) =~= b);
            if sorts_before(m, a0) {
                assert(smerge(a, bm) == seq![m] + smerge(a, b));
                if sorts_before(b0, a0) {
                    assert(smerge(a, b) == seq![b0] + smerge(a, b.skip(1)));
                } else {
                    assert(smerge(a, b) == seq![a0] + smerge(a.skip(1), b));
                }
                assert(sorts_before(m, smerge(a, b)[0]));
                lemma_sinsert_head(smerge(a, b), m);
            } else {
                assert(!sorts_before(b0, a0));
                assert(smerge(a, bm) == seq![a0] + smerge(a.skip(1), bm));
                lemma_smerge_sinsert(a.skip(1), b, m);
                assert(smerge(a, b) == seq![a0] + smerge(a.skip(1), b));
                assert(smerge(a, b)[0] == a0);
                lemma_sinsert_tail(smerge(a, b), m);
                assert(smerge(a, b).skip(1) =~= smerge(a.skip(1), b));
            }
        } else {
            lemma_sinsert_tail(b, m);
            let bm = sinsert(b, m);
            assert(bm == seq![b0] + sinsert(b.skip(1), m));
            assert(bm[0] == b0);
            assert(bm.skip(1) =~= sinsert(b.skip(1), m));
            if sorts_before(b0, a0) {
                assert(smerge(a, bm) == seq![b0] + smerge(a, bm.skip(1)));
                lemma_smerge_sinsert(a, b.skip(1), m);
                assert(smerge(a, b) == seq![b0] + smerge(a, b.skip(1)));
                assert(smerge(a, b)[0] == b0);
                lemma_sinsert_tail(smerge(a, b), m);
                assert(smerge(a, b).skip(1) =~= smerge(a, b.skip(1)));
            } else {
                assert(smerge(a, bm) == seq![a0] + smerge(a.skip(1), bm));
                lemma_smerge_sinsert(a.skip(1), b, m);
                assert(smerge(a, b) == seq![a0] + smerge(a.skip(1), b));
                assert(!sorts_before(m, a0));
                assert(smerge(a, b)[0] == a0);
                lemma_sinsert_tail(smerge(a, b), m);
                assert(smerge(a, b).skip(1) =~= smerge(a.skip(1), b));
            }
        }
    }
}

/// Merging two stably sorted sequences sorts their concatenation stably.
pub proof fn lemma_smerge_isort(xs: Seq<MatchView>, ys: Seq<MatchView>)
    ensures
        smerge(isort(xs), isort(ys)) == isort(xs + ys),
    decreases ys.len(),
{
    if ys.len() == 0 {
        assert(xs + ys =~= xs);
        assert(isort(ys) =~= Seq::<MatchView>::empty());
        if isort(xs).len() == 0 {
            assert(smerge(isort(xs), isort(ys)) =~= isort(xs));
        }
    } else {
        let y = ys.last();
        lemma_smerge_isort(xs, ys.drop_last());
        assert((xs + ys).drop_last() =~= xs + ys.drop_last());
        assert((xs + ys).last() == y);
        lemma_smerge_sinsert(isort(xs), isort(ys.drop_last()), y);
    }
}

/// Shrinking a cap twice is shrinking to the smaller cap.
pub proof fn lemma_take_cap_mono(s: Seq<MatchView>, c1: int, c2: int)
    requires
        0 <= c1 <= c2,
    ensures
        take_cap(take_cap(s, c2), c1) == take_cap(s, c1),
{
    assert(take_cap(take_cap(s, c2), c1) =~= take_cap(s, c1));
}

/// A capped nonempty sequence is its head followed by the capped tail.
pub proof fn lemma_take_cap_cons(s: Seq<MatchView>, c: int)
    requires
        s.len() > 0,
        c >= 1,
    ensures
        take_cap(s, c) == seq![s[0]] + take_cap(s.skip(1), c - 1),
{
    assert(take_cap(s, c) =~= seq![s[0]] + take_cap(s.skip(1), c - 1));
}

/// The first `c` elements of a merge depend only on the first `c` elements
/// of each side.
pub proof fn lemma_smerge_prefix(
    a1: Seq<MatchView>,
    b1: Seq<MatchView>,
    a2: Seq<MatchView>,
    b2: Seq<MatchView>,
    c: int,
)
    requires
        c >= 0,
        take_cap(a1, c) == take_cap(a2, c),
        take_cap(b1, c) == take_cap(b2, c),
    ensures
        take_cap(smerge(a1, b1), c) == take_cap(smerge(a2, b2), c),
    decreases c,
{
    if c == 0 {
        assert(take_cap(smerge(a1, b1), 0) =~= take_cap(smerge(a2, b2), 0));
    } else if a1.len() == 0 {
        assert(a2.len() == 0) by {
            if a2.len() > 0 {
                assert(take_cap(a2, c).len() > 0);
                assert(take_cap(a1, c).len() == 0);
            }
        }
    } else if b1.len() == 0 {
        assert(b2.len() == 0) by {
            if b2.len() > 0 {
                assert(take_cap(b2, c).len() > 0);
                assert(take_cap(b1, c).len() == 0);
            }
        }
    } else {
        assert(a2.len() > 0) by {
            if a2.len() == 0 {
                assert(take_cap(a2, c).len() == 0);
                assert(take_cap(a1, c).len() > 0);
            }
        }
        assert(b2.len() > 0) by {
            if b2.len() == 0 {
                assert(take_cap(b2, c).len() == 0);
                assert(take_cap(b1, c).len() > 0);
            }
        }
        assert(a1[0] == a2[0]) by {
            assert(take_cap(a1, c)[0] == a1[0]);
            assert(take_cap(a2, c)[0] == a2[0]);
        }
        assert(b1[0] == b2[0]) by {
            assert(take_cap(b1, c)[0] == b1[0]);
            assert(take_cap(b2, c)[0] == b2[0]);
        }
        lemma_take_cap_cons(a1, c);
        lemma_take_cap_cons(a2, c);
        lemma_take_cap_cons(b1, c);
        lemma_take_cap_cons(b2, c);
        assert(take_cap(a1.skip(1), c - 1) == take_cap(a2.skip(1), c - 1)) by {
            assert((seq![a1[0]] + take_cap(a1.skip(1), c - 1)).skip(1) =~= take_cap(
                a1.skip(1),
                c - 1,
            ));
            assert((seq![a2[0]] + take_cap(a2.skip(1), c - 1)).skip(1) =~= take_cap(
                a2.skip(1),
                c - 1,
            ));
        }
        assert(take_cap(b1.skip(1), c - 1) == take_cap(b2.skip(1), c - 1)) by {
            assert((seq![b1[0]] + take_cap(b1.skip(1), c - 1)).skip(1) =~= take_cap(
                b1.skip(1),
                c - 1,
            ));
            assert((seq![b2[0]] + take_cap(b2.skip(1), c - 1)).skip(1) =~= take_cap(
                b2.skip(1),
                c - 1,
            ));
        }
        lemma_smerge_len(a1, b1);
        lemma_smerge_len(a2, b2);
        if sorts_before(b1[0], a1[0]) {
            assert(smerge(a1, b1) == seq![b1[0]] + smerge(a1, b1.skip(1)));
            assert(smerge(a2, b2) == seq![b2[0]] + smerge(a2, b2.skip(1)));
            lemma_take_cap_cons(smerge(a1, b1), c);
            lemma_take_cap_cons(smerge(a2, b2), c);
            assert(smerge(a1, b1).skip(1) =~= smerge(a1, b1.skip(1)));
            assert(smerge(a2, b2).skip(1) =~= smerge(a2, b2.skip(1)));
            lemma_take_cap_mono(a1, c - 1, c);
            lemma_take_cap_mono(a2, c - 1, c);
            lemma_smerge_prefix(a1, b1.skip(1), a2, b2.skip(1), c - 1);
        } else {
            assert(smerge(a1, b1) == seq![a1[0]] + smerge(a1.skip(1), b1));
            assert(smerge(a2, b2) == seq![a2[0]] + smerge(a2.skip(1), b2));
            lemma_take_cap_cons(smerge(a1, b1), c);
            lemma_take_cap_cons(smerge(a2, b2), c);
            assert(smerge(a1, b1).skip(1) =~= smerge(a1.skip(1), b1));
            assert(smerge(a2, b2).skip(1) =~= smerge(a2.skip(1), b2));
            lemma_take_cap_mono(b1, c - 1, c);
            lemma_take_cap_mono(b2, c - 1, c);
            lemma_smerge_prefix(a1.skip(1), b1, a2.skip(1), b2, c - 1);
        }
    }
}

/// Capping the left input of a capped merge changes nothing.
pub proof fn lemma_smerge_cap_left(a: Seq<MatchView>, b: Seq<MatchView>, c: int)
    requires
        c >= 0,
    ensures
        take_cap(smerge(take_cap(a, c), b), c) == take_cap(smerge(a, b), c),
{
    lemma_take_cap_mono(a, c, c);
    lemma_smerge_prefix(take_cap(a, c), b, a, b, c);
}

/// Capping the right input of a capped merge changes nothing.
pub proof fn lemma_smerge_cap_right(a: Seq<MatchView>, b: Seq<MatchView>, c: int)
    requires
        c >= 0,
    ensures
        take_cap(smerge(a, take_cap(b, c)), c) == take_cap(smerge(a, b), c),
{
    lemma_take_cap_mono(b, c, c);
    lemma_smerge_prefix(a, take_cap(b, c), a, b, c);
}

/// The capped fold is the capped stable sort: dropping results beyond the
/// cap as they arrive loses nothing that the full sort would keep.
pub proof fn lemma_cap_fold_isort(ms: Seq<MatchView>, c: int)
    requires
        c >= 0,
    ensures
        cap_fold(ms, c) == take_cap(isort(ms), c),
    decreases ms.len(),
{
    if ms.len() == 0 {
    } else {
        let m = ms.last();
        lemma_cap_fold_isort(ms.drop_last(), c);
        let s = isort(ms.drop_last());
        lemma_smerge_single(take_cap(s, c), m);
        lemma_smerge_single(s, m);
        lemma_smerge_cap_left(s, seq![m], c);
    }
}

/// Stable insertion preserves sortedness.
pub proof fn lemma_sinsert_sorted(s: Seq<MatchView>, m: MatchView)
    requires
        sorted(s),
    ensures
        sorted(sinsert(s, m)),
{
    lemma_insert_pos_props(s, m);
    let p = insert_pos(s, m);
    let r = s.insert(p, m);
    assert forall|i: int, j: int| 0 <= i < j < r.len() implies ord_le(r[i], r[j]) by {
        if j < p {
            assert(r[i] == s[i] && r[j] == s[j]);
        } else if i < p && j == p {
            assert(r[i] == s[i] && r[j] == m);
        } else if i < p && j > p {
            assert(r[i] == s[i] && r[j] == s[j - 1]);
            if j - 1 >= p {
                if i < j - 1 {
                    assert(ord_le(s[i], s[j - 1]));
                }
            }
        } else if i == p {
            assert(r[i] == m && r[j] == s[j - 1]);
            assert(sorts_before(m, s[p]));
            if j - 1 > p {
                assert(ord_le(s[p], s[j - 1]));
            }
        } else {
            assert(r[i] == s[i - 1] && r[j] == s[j - 1]);
        }
    }
}

/// Capping preserves sortedness.
pub proof fn lemma_take_cap_sorted(s: Seq<MatchView>, c: int)
    requires
        sorted(s),
        c >= 0,
    ensures
        sorted(take_cap(s, c)),
{
    assert forall|i: int, j: int|
        0 <= i < j < take_cap(s, c).len() implies ord_le(take_cap(s, c)[i], take_cap(s, c)[j]) by {
        assert(take_cap(s, c)[i] == s[i] && take_cap(s, c)[j] == s[j]);
    }
}

/// The capped fold is sorted and never longer than the cap.
pub proof fn lemma_cap_fold_props(ms: Seq<MatchView>, c: int)
    requires
        c >= 0,
    ensures
        sorted(cap_fold(ms, c)),
        cap_fold(ms, c).len() <= c,
    decreases ms.len(),
{
    if ms.len() == 0 {
    } else {
        lemma_cap_fold_props(ms.drop_last(), c);
        lemma_sinsert_sorted(cap_fold(ms.drop_last(), c), ms.last());
        lemma_take_cap_sorted(sinsert(cap_fold(ms.drop_last(), c), ms.last()), c);
    }
}

/// A common lower bound of two sequences bounds their merge.
pub proof fn lemma_smerge_bound(x: MatchView, a: Seq<MatchView>, b: Seq<MatchView>)
    requires
        forall|i: int| 0 <= i < a.len() ==> ord_le(x, a[i]),
        forall|j: int| 0 <= j < b.len() ==> ord_le(x, b[j]),
    ensures
        forall|k: int| 0 <= k < smerge(a, b).len() ==> ord_le(x, smerge(a, b)[k]),
    decreases a.len() + b.len(),
{
    if a.len() == 0 {
    } else if b.len() == 0 {
    } else if sorts_before(b[0], a[0]) {
        assert forall|j: int| 0 <= j < b.skip(1).len() implies ord_le(x, b.skip(1)[j]) by {
            assert(b.skip(1)[j] == b[j + 1]);
        }
        lemma_smerge_bound(x, a, b.skip(1));
        assert forall|k: int| 0 <= k < smerge(a, b).len() implies ord_le(x, smerge(a, b)[k]) by {
            if k == 0 {
                assert(smerge(a, b)[0] == b[0]);
            } else {
                assert(smerge(a, b)[k] == smerge(a, b.skip(1))[k - 1]);
            }
        }
    } else {
        assert forall|i: int| 0 <= i < a.skip(1).len() implies ord_le(x, a.skip(1)[i]) by {
            assert(a.skip(1)[i] == a[i + 1]);
        }
        lemma_smerge_bound(x, a.skip(1), b);
        assert forall|k: int| 0 <= k < smerge(a, b).len() implies ord_le(x, smerge(a, b)[k]) by {
            if k == 0 {
            } else {
                assert(smerge(a, b)[k] == smerge(a.skip(1), b)[k - 1]);
            }
        }
    }
}

/// Merging preserves sortedness.
pub proof fn lemma_smerge_sorted(a: Seq<MatchView>, b: Seq<MatchView>)
    requires
        sorted(a),
        sorted(b),
    ensures
        sorted(smerge(a, b)),
    decreases a.len() + b.len(),
{
    if a.len() == 0 {
    } else if b.len() == 0 {
    } else {
        let r = smerge(a, b);
        if sorts_before(b[0], a[0]) {
            assert(sorted(b.skip(1))) by {
                assert forall|i: int, j: int|
                    0 <= i < j < b.skip(1).len() implies ord_le(b.skip(1)[i], b.skip(1)[j]) by {
                    assert(b.skip(1)[i] == b[i + 1] && b.skip(1)[j] == b[j + 1]);
                }
            }
            lemma_smerge_sorted(a, b.skip(1));
            assert forall|i: int| 0 <= i < a.len() implies ord_le(b[0], a[i]) by {
                if i > 0 {
                    assert(ord_le(a[0], a[i]));
                }
            }
            assert forall|j: int| 0 <= j < b.skip(1).len() implies ord_le(b[0], b.skip(1)[j]) by {
                assert(b.skip(1)[j] == b[j + 1]);
            }
            lemma_smerge_bound(b[0], a, b.skip(1));
            assert forall|i: int, j: int| 0 <= i < j < r.len() implies ord_le(r[i], r[j]) by {
                if i == 0 {
                    assert(r[j] == smerge(a, b.skip(1))[j - 1]);
                } else {
                    assert(r[i] == smerge(a, b.skip(1))[i - 1]);
                    assert(r[j] == smerge(a, b.skip(1))[j - 1]);
                }
            }
        } else {
            assert(sorted(a.skip(1))) by {
                assert forall|i: int, j: int|
                    0 <= i < j < a.skip(1).len() implies ord_le(a.skip(1)[i], a.skip(1)[j]) by {
                    assert(a.skip(1)[i] == a[i + 1] && a.skip(1)[j] == a[j + 1]);
                }
            }
            lemma_smerge_sorted(a.skip(1), b);
            assert forall|i: int| 0 <= i < a.skip(1).len() implies ord_le(a[0], a.skip(1)[i]) by {
                assert(a.skip(1)[i] == a[i + 1]);
            }
            assert forall|j: int| 0 <= j < b.len() implies ord_le(a[0], b[j]) by {
                if j > 0 {
                    assert(ord_le(b[0], b[j]));
                }
            }
            lemma_smerge_bound(a[0], a.skip(1), b);
            assert forall|i: int, j: int| 0 <= i < j < r.len() implies ord_le(r[i], r[j]) by {
                if i == 0 {
                    assert(r[j] == smerge(a.skip(1), b)[j - 1]);
                } else {
                    assert(r[i] == smerge(a.skip(1), b)[i - 1]);
                    assert(r[j] == smerge(a.skip(1), b)[j - 1]);
                }
            }
        }
    }
}

/// Insert `m` into a sorted, capped accumulator, keeping it sorted and
/// truncating back to `cap` afterwards.
pub(crate) fn insert_capped(results: &mut Vec<StringMatch>, m: StringMatch, cap: usize)
    requires
        old(results)@.len() <= cap,
        cap >= 1,
    ensures
        views_of(final(results)@) == take_cap(
            sinsert(views_of(old(results)@), m@),
            cap as int,
        ),
        final(results)@.len() <= cap,
{
    let ghost s0 = views_of(results@);
    let ghost mv = m@;
    let mut idx: usize = 0;
    while idx < results.len() && !m.lt(&results[idx])
        invariant
            results@ == old(results)@,
            s0 == views_of(results@),
            mv == m@,
            idx <= results@.len(),
            forall|k: int| 0 <= k < idx ==> !sorts_before(mv, s0[k]),
        decreases results@.len() - idx,
    {
        proof {
            assert(s0[idx as int] == results@[idx as int]@);
        }
        idx = idx + 1;
    }
    proof {
        assert(s0.len() == results@.len());
        if idx < results.len() {
            assert(s0[idx as int] == results@[idx as int]@);
        }
        lemma_insert_pos_eq(s0, mv, idx as int);
    }
    results.insert(idx, m);
    proof {
        assert(views_of(results@) =~= s0.insert(idx as int, mv));
    }
    if results.len() > cap {
        results.truncate(cap);
        proof {
            assert(views_of(results@) =~= take_cap(sinsert(s0, mv), cap as int));
        }
    } else {
        proof {
            assert(views_of(results@) =~= take_cap(sinsert(s0, mv), cap as int));
        }
    }
}

/// The merge step: stably merge `new_results` into `results` under the total
/// order, truncating the accumulator to `max_results`.
pub fn extend_sorted(results: &mut Vec<StringMatch>, new_results: Vec<StringMatch>, max_results: usize)
    ensures
        views_of(final(results)@) == take_cap(
            smerge(views_of(old(results)@), views_of(new_results@)),
            max_results as int,
        ),
{
    let mut new_results = new_results;
    let ghost va = views_of(results@);
    let ghost vb = views_of(new_results@);
    let mut out: Vec<StringMatch> = Vec::new();
    proof {
        assert(views_of(out@) + smerge(va, vb) =~= smerge(va, vb));
    }
    while (results.len() > 0 || new_results.len() > 0) && out.len() < max_results
        invariant
            out@.len() <= max_results,
            smerge(va, vb) == views_of(out@) + smerge(
                views_of(results@),
                views_of(new_results@),
            ),
        decreases results@.len() + new_results@.len(),
    {
        let ghost ra = views_of(results@);
        let ghost rb = views_of(new_results@);
        proof {
            assert(ra.len() == results@.len());
            assert(rb.len() == new_results@.len());
            if results@.len() > 0 {
                assert(ra[0] == results@[0]@);
            }
            if new_results@.len() > 0 {
                assert(rb[0] == new_results@[0]@);
            }
        }
        let take_new: bool = if results.len() == 0 {
            true
        } else if new_results.len() == 0 {
            false
        } else {
            new_results[0].lt(&results[0])
        };
        if take_new {
            let x = new_results.remove(0);
            proof {
                assert(views_of(new_results@) =~= rb.skip(1));
                if ra.len() == 0 {
                    assert(smerge(ra, rb) == rb);
                    assert(rb =~= seq![rb[0]] + rb.skip(1));
                    assert(smerge(ra, rb.skip(1)) == rb.skip(1));
                } else {
                    assert(smerge(ra, rb) == seq![rb[0]] + smerge(ra, rb.skip(1)));
                }
                assert(views_of(out@.push(x)) =~= views_of(out@) + seq![x@]);
                assert(views_of(out@) + (seq![rb[0]] + smerge(ra, rb.skip(1))) =~= (views_of(out@)
                    + seq![x@]) + smerge(ra, rb.skip(1)));
            }
            out.push(x);
        } else {
            let x = results.remove(0);
            proof {
                assert(views_of(results@) =~= ra.skip(1));
                if rb.len() == 0 {
                    assert(smerge(ra, rb) == ra);
                    assert(ra =~= seq![ra[0]] + ra.skip(1));
                    assert(smerge(ra.skip(1), rb) == ra.skip(1));
                } else {
                    assert(!sorts_before(rb[0], ra[0]));
                    assert(smerge(ra, rb) == seq![ra[0]] + smerge(ra.skip(1), rb));
                }
                assert(views_of(out@.push(x)) =~= views_of(out@) + seq![x@]);
                assert(views_of(out@) + (seq![ra[0]] + smerge(ra.skip(1), rb)) =~= (views_of(out@)
                    + seq![x@]) + smerge(ra.skip(1), rb));
            }
            out.push(x);
        }
    }
    proof {
        let rest = smerge(views_of(results@), views_of(new_results@));
        lemma_smerge_len(views_of(results@), views_of(new_results@));
        if results@.len() == 0 && new_results@.len() == 0 {
            assert(rest.len() == 0);
            assert(views_of(out@) + rest =~= views_of(out@));
            assert(take_cap(smerge(va, vb), max_results as int) == views_of(out@));
        } else {
            assert(out@.len() == max_results);
            assert(smerge(va, vb).len() >= max_results);
            assert(take_cap(smerge(va, vb), max_results as int) =~= views_of(out@));
        }
    }
    *results = out;
}

} // verus!
