use crate::record::RankingRecord;
use vstd::prelude::*;
use vstd::seq_lib::group_to_multiset_ensures;

verus! {

/// Scores never decrease along the sequence.
pub open spec fn score_sorted(s: Seq<RankingRecord>) -> bool {
    forall|i: int, j: int| 0 <= i < j < s.len() ==> s[i].score.key <= s[j].score.key
}

/// `x` placed into `s` after every record of `s` whose score is not above
/// its own, counted from the end.
pub open spec fn insert_by_score(s: Seq<RankingRecord>, x: RankingRecord) -> Seq<RankingRecord>
    decreases s.len(),
{
    if s.len() == 0 {
        seq![x]
    } else if s.last().score.key <= x.score.key {
        s.push(x)
    } else {
        insert_by_score(s.drop_last(), x).push(s.last())
    }
}

/// The records ordered by score, ties kept in input order.
pub open spec fn sort_by_score(s: Seq<RankingRecord>) -> Seq<RankingRecord>
    decreases s.len(),
{
    if s.len() == 0 {
        Seq::empty()
    } else {
        insert_by_score(sort_by_score(s.drop_last()), s.last())
    }
}

proof fn lemma_insert_by_score(s: Seq<RankingRecord>, x: RankingRecord)
    ensures
        insert_by_score(s, x).to_multiset() == s.to_multiset().insert(x),
        score_sorted(s) ==> score_sorted(insert_by_score(s, x)),
        insert_by_score(s, x).len() == s.len() + 1,
        forall|i: int|
            0 <= i < insert_by_score(s, x).len() ==> #[trigger] insert_by_score(s, x)[i] == x
                || s.contains(insert_by_score(s, x)[i]),
    decreases s.len(),
{
    broadcast use group_to_multiset_ensures;

    if s.len() == 0 {
        assert(seq![x] =~= Seq::<RankingRecord>::empty().push(x));
    } else if s.last().score.key <= x.score.key {
    } else {
        let t = s.drop_last();
        lemma_insert_by_score(t, x);
        assert(s =~= t.push(s.last()));
        let r = insert_by_score(t, x);
        assert forall|i: int| 0 <= i < r.len() implies #[trigger] r[i] == x || s.contains(r[i]) by {
            if r[i] != x {
                let k = choose|k: int| 0 <= k < t.len() && t[k] == r[i];
                assert(s[k] == r[i]);
            }
        }
        assert forall|i: int| 0 <= i < r.push(s.last()).len() implies #[trigger] r.push(
            s.last(),
        )[i] == x || s.contains(r.push(s.last())[i]) by {
            if i < r.len() {
                assert(r.push(s.last())[i] == r[i]);
            } else {
                assert(s[s.len() - 1] == s.last());
            }
        }
        if score_sorted(s) {
            assert forall|i: int, j: int|
                0 <= i < j < r.push(s.last()).len() implies r.push(s.last())[i].score.key
                <= r.push(s.last())[j].score.key by {
                if j == r.len() {
                    let e = r[i];
                    if e == x {
                    } else {
                        let k = choose|k: int| 0 <= k < s.len() && s[k] == e;
                        assert(s[s.len() - 1] == s.last());
                    }
                }
            }
        }
    }
}

proof fn lemma_sort_by_score(s: Seq<RankingRecord>)
    ensures
        score_sorted(sort_by_score(s)),
        sort_by_score(s).to_multiset() == s.to_multiset(),
        sort_by_score(s).len() == s.len(),
    decreases s.len(),
{
    broadcast use group_to_multiset_ensures;

    if s.len() > 0 {
        lemma_sort_by_score(s.drop_last());
        lemma_insert_by_score(sort_by_score(s.drop_last()), s.last());
        assert(s =~= s.drop_last().push(s.last()));
    }
}

/// Inserting `x` at a position after which every score is above its own, and
/// before which the nearest score is not, is what `insert_by_score` does.
proof fn lemma_insert_at(s: Seq<RankingRecord>, x: RankingRecord, j: int)
    requires
        0 <= j <= s.len(),
        forall|t: int| j <= t < s.len() ==> s[t].score.key > x.score.key,
        j > 0 ==> s[j - 1].score.key <= x.score.key,
    ensures
        insert_by_score(s, x) == s.insert(j, x),
    decreases s.len(),
{
    if s.len() == 0 {
        assert(s.insert(j, x) =~= seq![x]);
    } else if s.last().score.key <= x.score.key {
        assert(s.insert(j, x) =~= s.push(x));
    } else {
        lemma_insert_at(s.drop_last(), x, j);
        assert(s.insert(j, x) =~= s.drop_last().insert(j, x).push(s.last()));
    }
}

/// Orders the records by score, lowest first; records of equal score keep
/// their order.
pub fn finalize(records: Vec<RankingRecord>) -> (r: Vec<RankingRecord>)
    ensures
        r@ == sort_by_score(records@),
        score_sorted(r@),
        r@.to_multiset() == records@.to_multiset(),
{
    let ghost orig = records@;
    let mut rest = records;
    let mut out: Vec<RankingRecord> = Vec::new();
    let ghost mut k: int = 0;
    assert(orig.subrange(0, 0) =~= Seq::<RankingRecord>::empty());
    assert(orig.subrange(0, orig.len() as int) =~= orig);
    while rest.len() > 0
        invariant
            0 <= k <= orig.len(),
            out@ == sort_by_score(orig.subrange(0, k)),
            rest@ == orig.subrange(k, orig.len() as int),
        decreases rest@.len(),
    {
        let x = rest.remove(0);
        let mut j: usize = out.len();
        while j > 0 && out[j - 1].score.key > x.score.key
            invariant
                j <= out@.len(),
                forall|t: int| j <= t < out@.len() ==> out@[t].score.key > x.score.key,
            decreases j,
        {
            j = j - 1;
        }
        proof {
            lemma_insert_at(out@, x, j as int);
            assert(orig.subrange(0, k + 1).drop_last() =~= orig.subrange(0, k));
            assert(rest@ =~= orig.subrange(k + 1, orig.len() as int));
        }
        out.insert(j, x);
        proof {
            k = k + 1;
        }
    }
    assert(orig.subrange(0, k) =~= orig);
    proof {
        lemma_sort_by_score(orig);
    }
    out
}

proof fn lemma_sorted_fixed(s: Seq<RankingRecord>)
    requires
        score_sorted(s),
    ensures
        sort_by_score(s) == s,
    decreases s.len(),
{
    if s.len() > 0 {
        let t = s.drop_last();
        assert(score_sorted(t));
        lemma_sorted_fixed(t);
        if t.len() > 0 {
            assert(t.last() == s[s.len() - 2]);
        }
        assert(s =~= t.push(s.last()));
    }
}

proof fn lemma_sorted_same_keys(s1: Seq<RankingRecord>, s2: Seq<RankingRecord>)
    requires
        score_sorted(s1),
        score_sorted(s2),
        s1.to_multiset() == s2.to_multiset(),
    ensures
        s1.len() == s2.len(),
        forall|i: int| 0 <= i < s1.len() ==> s1[i].score.key == s2[i].score.key,
    decreases s1.len(),
{
    broadcast use group_to_multiset_ensures;

    assert(s1.len() == s1.to_multiset().len());
    assert(s2.len() == s2.to_multiset().len());
    if s1.len() > 0 {
        let n = s1.len() as int;
        let x = s1[n - 1];
        let y = s2[n - 1];
        assert(s1.contains(x));
        assert(s1.to_multiset().count(x) > 0);
        assert(s2.contains(x));
        let j = choose|j: int| 0 <= j < n && s2[j] == x;
        assert(s2.contains(y));
        assert(s2.to_multiset().count(y) > 0);
        assert(s1.contains(y));
        let k = choose|k: int| 0 <= k < n && s1[k] == y;
        assert(x.score.key == y.score.key);
        let t1 = s1.remove(n - 1);
        let t2 = s2.remove(j);
        assert(t1.to_multiset() == t2.to_multiset());
        assert forall|a: int, b: int| 0 <= a < b < t2.len() implies t2[a].score.key
            <= t2[b].score.key by {
            let a2 = if a < j {
                a
            } else {
                a + 1
            };
            let b2 = if b < j {
                b
            } else {
                b + 1
            };
            assert(t2[a] == s2[a2]);
            assert(t2[b] == s2[b2]);
        }
        assert(score_sorted(t1));
        lemma_sorted_same_keys(t1, t2);
        assert forall|i: int| 0 <= i < n implies s1[i].score.key == s2[i].score.key by {
            if i < n - 1 {
                assert(s1[i] == t1[i]);
                if i >= j {
                    assert(t2[i] == s2[i + 1]);
                }
            }
        }
    }
}

/// Ordering by score does not depend on the order of the input beyond ties:
/// two inputs that hold the same records give outputs with the same score at
/// every position.
pub proof fn lemma_order_independent_up_to_ties(a: Seq<RankingRecord>, b: Seq<RankingRecord>)
    requires
        a.to_multiset() == b.to_multiset(),
    ensures
        sort_by_score(a).len() == sort_by_score(b).len(),
        forall|i: int|
            0 <= i < sort_by_score(a).len() ==> #[trigger] sort_by_score(a)[i].score.key
                == sort_by_score(b)[i].score.key,
{
    lemma_sort_by_score(a);
    lemma_sort_by_score(b);
    lemma_sorted_same_keys(sort_by_score(a), sort_by_score(b));
}

/// Ordering by score is idempotent: ordering an ordered sequence again
/// leaves it as it is.
pub proof fn lemma_finalize_idempotent(s: Seq<RankingRecord>)
    ensures
        sort_by_score(sort_by_score(s)) == sort_by_score(s),
{
    lemma_sort_by_score(s);
    lemma_sorted_fixed(sort_by_score(s));
}

} // verus!
