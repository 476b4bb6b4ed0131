//! Ordering search candidates by confidence, highest first; candidates of
//! equal confidence keep the order they came in (a stable sort).

use vstd::prelude::*;
use crate::types::{Confidence, MatchItem, MatchItemView, match_views};

verus! {

/// Where a candidate of confidence `c` goes in `s`: before the first
/// candidate of strictly lower confidence, after all others.
pub open spec fn insert_pos(s: Seq<MatchItemView>, c: Confidence) -> nat
    decreases s.len(),
{
    if s.len() == 0 {
        0
    } else if s[0].confidence.spec_lt(c) {
        0
    } else {
        1 + insert_pos(s.drop_first(), c)
    }
}

/// `s` with `x` put in its place.
pub open spec fn insert_ranked(s: Seq<MatchItemView>, x: MatchItemView) -> Seq<MatchItemView> {
    s.insert(insert_pos(s, x.confidence) as int, x)
}

/// `s` sorted by decreasing confidence, stably: each candidate, taken in
/// order, is put after every earlier one of at least its confidence.
pub open spec fn rank(s: Seq<MatchItemView>) -> Seq<MatchItemView>
    decreases s.len(),
{
    if s.len() == 0 {
        Seq::empty()
    } else {
        insert_ranked(rank(s.drop_last()), s.last())
    }
}

proof fn lemma_insert_pos(s: Seq<MatchItemView>, c: Confidence, i: int)
    requires
        0 <= i <= s.len(),
        forall|k: int| 0 <= k < i ==> !(#[trigger] s[k]).confidence.spec_lt(c),
        i == s.len() || s[i].confidence.spec_lt(c),
    ensures
        insert_pos(s, c) == i,
    decreases i,
{
    if i > 0 {
        let t = s.drop_first();
        assert forall|k: int| 0 <= k < i - 1 implies !(#[trigger] t[k]).confidence.spec_lt(c) by {
            assert(t[k] == s[k + 1]);
        }
        lemma_insert_pos(t, c, i - 1);
    }
}

proof fn lemma_insert_pos_bounds(s: Seq<MatchItemView>, c: Confidence)
    ensures
        insert_pos(s, c) <= s.len(),
        forall|k: int| 0 <= k < insert_pos(s, c) ==> !(#[trigger] s[k]).confidence.spec_lt(c),
        insert_pos(s, c) < s.len() ==> s[insert_pos(s, c) as int].confidence.spec_lt(c),
    decreases s.len(),
{
    if s.len() > 0 && !s[0].confidence.spec_lt(c) {
        let t = s.drop_first();
        lemma_insert_pos_bounds(t, c);
        assert forall|k: int| 0 <= k < insert_pos(s, c) implies !(#[trigger] s[k]).confidence.spec_lt(c) by {
            if k > 0 {
                assert(s[k] == t[k - 1]);
            }
        }
    }
}

/// `items` sorted by decreasing confidence, stably.
pub fn sort_by_confidence(items: &Vec<MatchItem>) -> (r: Vec<MatchItem>)
    ensures
        match_views(r@) == rank(match_views(items@)),
        match_views(r@).to_multiset() == match_views(items@).to_multiset(),
        all_wf(match_views(items@)) ==> is_ranked(match_views(r@)),
{
    let n = items.len();
    let ghost iv = match_views(items@);
    let mut r: Vec<MatchItem> = Vec::new();
    for i in 0..n
        invariant
            n == items@.len(),
            iv == match_views(items@),
            match_views(r@) == rank(iv.take(i as int)),
    {
        let x = items[i].clone();
        let ghost rv = match_views(r@);
        let m = r.len();
        let mut p: usize = 0;
        while p < m
            invariant
                m == r@.len(),
                rv == match_views(r@),
                p <= m,
                forall|k: int| 0 <= k < p ==> !(#[trigger] rv[k]).confidence.spec_lt(x.confidence),
            ensures
                p <= m,
                forall|k: int| 0 <= k < p ==> !(#[trigger] rv[k]).confidence.spec_lt(x.confidence),
                p == m || rv[p as int].confidence.spec_lt(x.confidence),
            decreases m - p,
        {
            assert(rv[p as int] == r@[p as int]@);
            if r[p].confidence.lt(&x.confidence) {
                break;
            }
            p = p + 1;
        }
        proof {
            lemma_insert_pos(rv, x.confidence, p as int);
            assert(iv.take(i + 1).drop_last() == iv.take(i as int));
            assert(iv.take(i + 1).last() == x@);
        }
        r.insert(p, x);
        assert(match_views(r@) =~= rv.insert(p as int, x@));
    }
    assert(iv.take(n as int) == iv);
    proof {
        lemma_rank_facts(iv);
    }
    r
}

// ---------------------------------------------------------------------------
// Laws of the ordering
// ---------------------------------------------------------------------------

/// Every candidate's confidence is a well-formed fraction.
pub open spec fn all_wf(s: Seq<MatchItemView>) -> bool {
    forall|k: int| 0 <= k < s.len() ==> (#[trigger] s[k]).confidence.wf()
}

/// Confidences do not increase along `s`.
pub open spec fn is_ranked(s: Seq<MatchItemView>) -> bool {
    forall|a: int, b: int|
        0 <= a < b < s.len() ==> !(#[trigger] s[a]).confidence.spec_lt((#[trigger] s[b]).confidence)
}

/// Comparing confidences as fractions is transitive.
pub proof fn lemma_le_lt_trans(a: Confidence, b: Confidence, c: Confidence)
    requires
        a.den > 0,
        b.den > 0,
        c.den > 0,
        a.spec_le(b),
        b.spec_lt(c),
    ensures
        a.spec_lt(c),
{
    let (an, ad, bn, bd, cn, cd) = (a.num as int, a.den as int, b.num as int, b.den as int, c.num as int, c.den as int);
    assert(an * cd < cn * ad) by (nonlinear_arith)
        requires
            ad > 0,
            bd > 0,
            cd > 0,
            an >= 0,
            bn >= 0,
            cn >= 0,
            an * bd <= bn * ad,
            bn * cd < cn * bd,
    {
        assert(an * bd * cd <= bn * ad * cd);
        assert(bn * cd * ad < cn * bd * ad);
        assert(an * cd * bd < cn * ad * bd);
    }
}

proof fn lemma_not_lt_is_le(a: Confidence, b: Confidence)
    ensures
        !b.spec_lt(a) <==> a.spec_le(b),
{
}

proof fn lemma_rank_facts(s: Seq<MatchItemView>)
    ensures
        rank(s).len() == s.len(),
        rank(s).to_multiset() == s.to_multiset(),
        all_wf(s) ==> all_wf(rank(s)),
        all_wf(s) ==> is_ranked(rank(s)),
    decreases s.len(),
{
    broadcast use vstd::seq_lib::to_multiset_insert, vstd::seq_lib::to_multiset_build;

    if s.len() == 0 {
        assert(rank(s) =~= s);
    } else {
        let t = s.drop_last();
        let x = s.last();
        lemma_rank_facts(t);
        let rt = rank(t);
        lemma_insert_pos_bounds(rt, x.confidence);
        let p = insert_pos(rt, x.confidence) as int;
        let r = rank(s);
        assert(r == rt.insert(p, x));
        assert(s == t.push(x));
        assert(r.to_multiset() == rt.to_multiset().insert(x));
        assert(t.push(x).to_multiset() == t.to_multiset().insert(x));
        if all_wf(s) {
            assert(all_wf(t)) by {
                assert forall|k: int| 0 <= k < t.len() implies (#[trigger] t[k]).confidence.wf() by {
                    assert(t[k] == s[k]);
                }
            }
            assert(x.confidence.wf());
            assert forall|k: int| 0 <= k < r.len() implies (#[trigger] r[k]).confidence.wf() by {
                if k < p {
                    assert(r[k] == rt[k]);
                } else if k > p {
                    assert(r[k] == rt[k - 1]);
                }
            }
            assert forall|a: int, b: int|
                0 <= a < b < r.len() implies !(#[trigger] r[a]).confidence.spec_lt(
                (#[trigger] r[b]).confidence,
            ) by {
                if b < p {
                    assert(r[a] == rt[a] && r[b] == rt[b]);
                } else if b == p {
                    assert(r[a] == rt[a]);
                } else if a > p {
                    assert(r[a] == rt[a - 1] && r[b] == rt[b - 1]);
                } else if a == p {
                    // rt[b - 1] <= rt[p] < x
                    assert(r[b] == rt[b - 1]);
                    assert(rt[p].confidence.spec_lt(x.confidence));
                    if b - 1 > p {
                        assert(!rt[p].confidence.spec_lt(rt[b - 1].confidence));
                    }
                    lemma_not_lt_is_le(rt[b - 1].confidence, rt[p].confidence);
                    lemma_le_lt_trans(rt[b - 1].confidence, rt[p].confidence, x.confidence);
                    assert(rt[b - 1].confidence.spec_lt(x.confidence));
                    assert(!x.confidence.spec_lt(rt[b - 1].confidence)) by {
                        let (xn, xd, yn, yd) = (x.confidence.num as int, x.confidence.den as int, rt[b - 1].confidence.num as int, rt[b - 1].confidence.den as int);
                        assert(yn * xd < xn * yd);
                    }
                } else {
                    // a < p < b
                    assert(r[a] == rt[a] && r[b] == rt[b - 1]);
                }
            }
        }
    }
}

/// Sorting keeps exactly the candidates it was given, each as often.
pub proof fn lemma_rank_is_permutation(s: Seq<MatchItemView>)
    ensures
        rank(s).to_multiset() == s.to_multiset(),
        rank(s).len() == s.len(),
{
    lemma_rank_facts(s);
}

/// Sorting orders candidates by non-increasing confidence.
pub proof fn lemma_rank_is_sorted(s: Seq<MatchItemView>)
    requires
        all_wf(s),
    ensures
        is_ranked(rank(s)),
        all_wf(rank(s)),
{
    lemma_rank_facts(s);
}

/// The candidates of `s` whose confidence equals `c` as a fraction, in order.
pub open spec fn with_value(s: Seq<MatchItemView>, c: Confidence) -> Seq<MatchItemView>
    decreases s.len(),
{
    if s.len() == 0 {
        Seq::empty()
    } else if same_value(s.last().confidence, c) {
        with_value(s.drop_last(), c).push(s.last())
    } else {
        with_value(s.drop_last(), c)
    }
}

/// `a` and `b` are equal as fractions.
pub open spec fn same_value(a: Confidence, b: Confidence) -> bool {
    a.num * b.den == b.num * a.den
}

proof fn lemma_with_value_concat(a: Seq<MatchItemView>, b: Seq<MatchItemView>, c: Confidence)
    ensures
        with_value(a + b, c) == with_value(a, c) + with_value(b, c),
    decreases b.len(),
{
    if b.len() == 0 {
        assert(a + b =~= a);
        assert(with_value(a, c) + with_value(b, c) =~= with_value(a, c));
    } else {
        lemma_with_value_concat(a, b.drop_last(), c);
        assert((a + b).drop_last() =~= a + b.drop_last());
        assert((a + b).last() == b.last());
        if same_value(b.last().confidence, c) {
            assert(with_value(a, c) + with_value(b.drop_last(), c).push(b.last()) =~= (with_value(a, c)
                + with_value(b.drop_last(), c)).push(b.last()));
        }
    }
}

proof fn lemma_with_value_none(s: Seq<MatchItemView>, c: Confidence)
    requires
        forall|k: int| 0 <= k < s.len() ==> !same_value((#[trigger] s[k]).confidence, c),
    ensures
        with_value(s, c) == Seq::<MatchItemView>::empty(),
    decreases s.len(),
{
    if s.len() > 0 {
        assert(!same_value(s[s.len() - 1].confidence, c));
        lemma_with_value_none(s.drop_last(), c);
    }
}

proof fn lemma_same_value_trans(a: Confidence, b: Confidence, c: Confidence)
    requires
        a.den > 0,
        b.den > 0,
        c.den > 0,
        same_value(a, b),
        same_value(b, c),
    ensures
        same_value(a, c),
{
    let (an, ad, bn, bd, cn, cd) = (a.num as int, a.den as int, b.num as int, b.den as int, c.num as int, c.den as int);
    assert(an * cd == cn * ad) by (nonlinear_arith)
        requires
            ad > 0,
            bd > 0,
            cd > 0,
            an * bd == bn * ad,
            bn * cd == cn * bd,
    {
        assert(an * bd * cd == bn * ad * cd);
        assert(bn * cd * ad == cn * bd * ad);
        assert(an * cd * bd == cn * ad * bd);
    }
}

proof fn lemma_lt_not_same(a: Confidence, b: Confidence)
    requires
        a.spec_lt(b),
    ensures
        !same_value(a, b),
{
}

/// Sorting is stable: for every confidence value, the candidates of that
/// value come out in the order they went in.
pub proof fn lemma_rank_is_stable(s: Seq<MatchItemView>, c: Confidence)
    requires
        all_wf(s),
        c.den > 0,
    ensures
        with_value(rank(s), c) == with_value(s, c),
    decreases s.len(),
{
    if s.len() > 0 {
        let t = s.drop_last();
        let x = s.last();
        assert(all_wf(t)) by {
            assert forall|k: int| 0 <= k < t.len() implies (#[trigger] t[k]).confidence.wf() by {
                assert(t[k] == s[k]);
            }
        }
        assert(x.confidence.wf()) by {
            assert(x == s[s.len() - 1]);
        }
        lemma_rank_is_stable(t, c);
        let rt = rank(t);
        lemma_rank_facts(t);
        lemma_insert_pos_bounds(rt, x.confidence);
        let p = insert_pos(rt, x.confidence) as int;
        let r = rank(s);
        assert(r == rt.insert(p, x));
        let front = rt.take(p);
        let back = rt.skip(p);
        assert(rt =~= front + back);
        assert(r =~= front + seq![x] + back);
        lemma_with_value_concat(front, back, c);
        lemma_with_value_concat(front + seq![x], back, c);
        lemma_with_value_concat(front, seq![x], c);
        assert(seq![x].drop_last() =~= Seq::<MatchItemView>::empty());
        assert(seq![x].last() == x);
        assert(with_value(Seq::<MatchItemView>::empty(), c) == Seq::<MatchItemView>::empty());
        assert(s =~= t.push(x));
        if same_value(x.confidence, c) {
            // nothing of the same value lies behind the place `x` goes to
            assert forall|k: int| 0 <= k < back.len() implies !same_value((#[trigger] back[k]).confidence, c) by {
                assert(back[k] == rt[p + k]);
                assert(rt[p].confidence.spec_lt(x.confidence));
                assert(rt[p + k].confidence.wf());
                if k > 0 {
                    assert(!rt[p].confidence.spec_lt(rt[p + k].confidence));
                    lemma_not_lt_is_le(rt[p + k].confidence, rt[p].confidence);
                    lemma_le_lt_trans(rt[p + k].confidence, rt[p].confidence, x.confidence);
                }
                lemma_lt_not_same(rt[p + k].confidence, x.confidence);
                if same_value(rt[p + k].confidence, c) {
                    assert(same_value(c, x.confidence));
                    lemma_same_value_trans(rt[p + k].confidence, c, x.confidence);
                }
            }
            lemma_with_value_none(back, c);
            assert(with_value(seq![x], c) =~= seq![x]);
            assert(with_value(r, c) =~= with_value(front, c) + seq![x]);
            assert(with_value(rt, c) =~= with_value(front, c));
            assert(with_value(r, c) =~= with_value(rt, c).push(x));
        } else {
            assert(with_value(seq![x], c) =~= Seq::<MatchItemView>::empty());
            assert(with_value(r, c) =~= with_value(rt, c));
        }
    }
}

} // verus!
