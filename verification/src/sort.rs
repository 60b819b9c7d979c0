//! Ordering a listing by commit recency: a stable sort, most-recent
//! first, with ties keeping the order the ref-listing tool produced.

use vstd::prelude::*;

use crate::record::BranchRecord;
use crate::record::RecordView;
use crate::record::views_of;

verus! {

/// `s` is ordered by `last_commit_epoch`, largest first.
pub open spec fn sorted_desc(s: Seq<RecordView>) -> bool {
    forall|i: int, j: int|
        0 <= i < j < s.len() ==> s[i].last_commit_epoch >= s[j].last_commit_epoch
}

/// Insert `x` behind every element whose epoch is at least `x`'s, so
/// that an element arriving later never overtakes an equal one.
pub open spec fn insert_desc(x: RecordView, s: Seq<RecordView>) -> Seq<RecordView>
    decreases s.len(),
{
    if s.len() == 0 {
        seq![x]
    } else if s.last().last_commit_epoch >= x.last_commit_epoch {
        s.push(x)
    } else {
        insert_desc(x, s.drop_last()).push(s.last())
    }
}

/// The stable descending sort of `s`: each element in turn inserted
/// into the sorted prefix.
pub open spec fn sort_desc(s: Seq<RecordView>) -> Seq<RecordView>
    decreases s.len(),
{
    if s.len() == 0 {
        Seq::<RecordView>::empty()
    } else {
        insert_desc(s.last(), sort_desc(s.drop_last()))
    }
}

/// The subsequence of records whose epoch is exactly `k`, in order.
pub open spec fn with_epoch(s: Seq<RecordView>, k: i64) -> Seq<RecordView>
    decreases s.len(),
{
    if s.len() == 0 {
        Seq::<RecordView>::empty()
    } else if s.last().last_commit_epoch == k {
        with_epoch(s.drop_last(), k).push(s.last())
    } else {
        with_epoch(s.drop_last(), k)
    }
}

proof fn lemma_insert_len(x: RecordView, s: Seq<RecordView>)
    ensures
        insert_desc(x, s).len() == s.len() + 1,
    decreases s.len(),
{
    if s.len() > 0 && s.last().last_commit_epoch < x.last_commit_epoch {
        lemma_insert_len(x, s.drop_last());
    }
}

proof fn lemma_insert_lower_bound(x: RecordView, s: Seq<RecordView>, b: i64)
    requires
        x.last_commit_epoch >= b,
        forall|i: int| 0 <= i < s.len() ==> s[i].last_commit_epoch >= b,
    ensures
        forall|i: int|
            0 <= i < insert_desc(x, s).len() ==> insert_desc(x, s)[i].last_commit_epoch
                >= b,
    decreases s.len(),
{
    if s.len() == 0 {
    } else if s.last().last_commit_epoch >= x.last_commit_epoch {
    } else {
        assert(forall|i: int|
            0 <= i < s.drop_last().len() ==> s.drop_last()[i].last_commit_epoch >= b);
        lemma_insert_lower_bound(x, s.drop_last(), b);
        lemma_insert_len(x, s.drop_last());
    }
}

proof fn lemma_insert_sorted(x: RecordView, s: Seq<RecordView>)
    requires
        sorted_desc(s),
    ensures
        sorted_desc(insert_desc(x, s)),
    decreases s.len(),
{
    if s.len() == 0 {
    } else if s.last().last_commit_epoch >= x.last_commit_epoch {
        assert(forall|i: int|
            0 <= i < s.len() ==> s[i].last_commit_epoch >= s.last().last_commit_epoch);
    } else {
        let dl = s.drop_last();
        assert(sorted_desc(dl));
        lemma_insert_sorted(x, dl);
        lemma_insert_len(x, dl);
        assert(forall|i: int|
            0 <= i < dl.len() ==> dl[i].last_commit_epoch >= s.last().last_commit_epoch);
        lemma_insert_lower_bound(x, dl, s.last().last_commit_epoch);
        let r = insert_desc(x, dl).push(s.last());
        assert(forall|i: int, j: int|
            0 <= i < j < r.len() ==> r[i].last_commit_epoch >= r[j].last_commit_epoch);
    }
}

/// The sort's output is ordered by epoch, largest first.
pub proof fn lemma_sort_sorted(s: Seq<RecordView>)
    ensures
        sorted_desc(sort_desc(s)),
    decreases s.len(),
{
    if s.len() > 0 {
        lemma_sort_sorted(s.drop_last());
        lemma_insert_sorted(s.last(), sort_desc(s.drop_last()));
    }
}

proof fn lemma_insert_with_epoch(x: RecordView, s: Seq<RecordView>, k: i64)
    ensures
        with_epoch(insert_desc(x, s), k) == if x.last_commit_epoch == k {
            with_epoch(s, k).push(x)
        } else {
            with_epoch(s, k)
        },
    decreases s.len(),
{
    if s.len() == 0 {
        let e = Seq::<RecordView>::empty();
        assert(insert_desc(x, s) =~= e.push(x));
        assert(e.push(x).drop_last() =~= e);
        assert(e.push(x).last() == x);
        assert(with_epoch(e, k) =~= e);
    } else if s.last().last_commit_epoch >= x.last_commit_epoch {
        assert(s.push(x).drop_last() =~= s);
        assert(s.push(x).last() == x);
        if x.last_commit_epoch == k {
            assert(with_epoch(s.push(x), k) == with_epoch(s, k).push(x));
        } else {
            assert(with_epoch(s.push(x), k) == with_epoch(s, k));
        }
    } else {
        let dl = s.drop_last();
        lemma_insert_with_epoch(x, dl, k);
        let inner = insert_desc(x, dl);
        assert(inner.push(s.last()).drop_last() =~= inner);
        assert(inner.push(s.last()).last() == s.last());
        if s.last().last_commit_epoch == k {
            assert(with_epoch(inner.push(s.last()), k) == with_epoch(inner, k).push(
                s.last(),
            ));
            assert(with_epoch(s, k) == with_epoch(dl, k).push(s.last()));
        } else {
            assert(with_epoch(inner.push(s.last()), k) == with_epoch(inner, k));
            assert(with_epoch(s, k) == with_epoch(dl, k));
        }
    }
}

/// The sort is stable: for every epoch value, the records carrying it
/// appear in the output in the same order as in the input.
pub proof fn lemma_sort_stable(s: Seq<RecordView>, k: i64)
    ensures
        with_epoch(sort_desc(s), k) == with_epoch(s, k),
    decreases s.len(),
{
    if s.len() > 0 {
        lemma_sort_stable(s.drop_last(), k);
        lemma_insert_with_epoch(s.last(), sort_desc(s.drop_last()), k);
    }
}

proof fn lemma_insert_multiset(x: RecordView, s: Seq<RecordView>)
    ensures
        insert_desc(x, s).to_multiset() == s.to_multiset().insert(x),
    decreases s.len(),
{
    if s.len() == 0 {
        Seq::<RecordView>::empty().to_multiset_ensures();
        assert(insert_desc(x, s) =~= Seq::<RecordView>::empty().push(x));
        assert(s =~= Seq::<RecordView>::empty());
    } else if s.last().last_commit_epoch >= x.last_commit_epoch {
        s.to_multiset_ensures();
    } else {
        let dl = s.drop_last();
        lemma_insert_multiset(x, dl);
        let inner = insert_desc(x, dl);
        inner.to_multiset_ensures();
        dl.to_multiset_ensures();
        assert(dl.push(s.last()) =~= s);
        assert(inner.push(s.last()).to_multiset() =~= inner.to_multiset().insert(s.last()));
        assert(dl.to_multiset().insert(x).insert(s.last()) =~= dl.to_multiset().insert(
            s.last(),
        ).insert(x));
    }
}

/// The sort only reorders: the output holds exactly the input records.
pub proof fn lemma_sort_permutation(s: Seq<RecordView>)
    ensures
        sort_desc(s).to_multiset() == s.to_multiset(),
        sort_desc(s).len() == s.len(),
    decreases s.len(),
{
    s.to_multiset_ensures();
    sort_desc(s).to_multiset_ensures();
    if s.len() > 0 {
        let dl = s.drop_last();
        lemma_sort_permutation(dl);
        lemma_insert_multiset(s.last(), sort_desc(dl));
        dl.to_multiset_ensures();
        assert(dl.push(s.last()) =~= s);
    }
}

proof fn lemma_insert_position(x: RecordView, s: Seq<RecordView>, j: int)
    requires
        0 <= j <= s.len(),
        j == 0 || s[j - 1].last_commit_epoch >= x.last_commit_epoch,
        forall|m: int| j <= m < s.len() ==> s[m].last_commit_epoch < x.last_commit_epoch,
    ensures
        insert_desc(x, s) == s.take(j) + seq![x] + s.skip(j),
    decreases s.len(),
{
    if j == s.len() {
        if s.len() == 0 {
            assert(insert_desc(x, s) =~= s.take(j) + seq![x] + s.skip(j));
        } else {
            assert(s.push(x) =~= s.take(j) + seq![x] + s.skip(j));
        }
    } else {
        assert(s.last().last_commit_epoch < x.last_commit_epoch);
        let dl = s.drop_last();
        assert(j == 0 || dl[j - 1] == s[j - 1]);
        assert(forall|m: int|
            j <= m < dl.len() ==> dl[m].last_commit_epoch < x.last_commit_epoch);
        lemma_insert_position(x, dl, j);
        assert(dl.take(j) =~= s.take(j));
        assert((dl.take(j) + seq![x] + dl.skip(j)).push(s.last()) =~= s.take(j) + seq![x]
            + s.skip(j));
    }
}

/// Insert one record into a listing already sorted by recency, keeping
/// it behind every record of equal or larger epoch.
fn insert_record(out: &mut Vec<BranchRecord>, x: BranchRecord)
    ensures
        views_of(final(out)@) == insert_desc(x@, views_of(old(out)@)),
{
    let ghost s = views_of(out@);
    let mut j: usize = out.len();
    while j > 0 && out[j - 1].last_commit_epoch < x.last_commit_epoch
        invariant
            j <= out.len(),
            out@ == old(out)@,
            s == views_of(out@),
            forall|m: int|
                j <= m < s.len() ==> s[m].last_commit_epoch < x@.last_commit_epoch,
        decreases j,
    {
        assert(s[j - 1] == out@[j - 1]@);
        j = j - 1;
    }
    proof {
        if j > 0 {
            assert(s[j - 1] == out@[j - 1]@);
        }
        lemma_insert_position(x@, s, j as int);
    }
    out.insert(j, x);
    proof {
        assert(views_of(out@) =~= s.take(j as int) + seq![x@] + s.skip(j as int));
    }
}

/// Sort a listing by `last_commit_epoch`, most-recent first; records
/// with equal epochs keep their input order.
#[verifier::loop_isolation(false)]
pub fn sort_by_recency(v: Vec<BranchRecord>) -> (r: Vec<BranchRecord>)
    ensures
        views_of(r@) == sort_desc(views_of(v@)),
{
    let ghost g = views_of(v@);
    let mut rest = v;
    let mut out: Vec<BranchRecord> = Vec::new();
    let ghost mut done: int = 0;
    proof {
        assert(views_of(rest@) =~= g.skip(0));
        assert(views_of(out@) =~= sort_desc(g.take(0)));
    }
    while rest.len() > 0
        invariant
            0 <= done <= g.len(),
            views_of(rest@) == g.skip(done),
            views_of(out@) == sort_desc(g.take(done)),
        decreases rest.len(),
    {
        proof {
            assert(g.skip(done).len() == g.len() - done);
        }
        let ghost before = rest@;
        let x = rest.remove(0);
        insert_record(&mut out, x);
        proof {
            assert(x == before[0]);
            assert(views_of(before)[0] == before[0]@);
            assert(g.skip(done)[0] == g[done]);
            assert(x@ == g[done]);
            assert(views_of(rest@) =~= g.skip(done + 1)) by {
                assert(rest@ =~= before.remove(0));
                assert(forall|m: int|
                    0 <= m < rest@.len() ==> #[trigger] rest@[m] == before[m + 1]);
                assert(forall|m: int|
                    0 <= m < rest@.len() ==> #[trigger] views_of(rest@)[m] == views_of(
                        before,
                    )[m + 1]);
                assert(forall|m: int|
                    0 <= m < rest@.len() ==> #[trigger] views_of(before)[m + 1] == g.skip(
                        done,
                    )[m + 1]);
                assert(forall|m: int|
                    0 <= m < rest@.len() ==> g.skip(done)[m + 1] == #[trigger] g.skip(
                        done + 1,
                    )[m]);
            }
            done = done + 1;
            assert(g.take(done).drop_last() =~= g.take(done - 1));
            assert(g.take(done).last() == g[done - 1]);
            assert(views_of(out@) == sort_desc(g.take(done)));
        }
    }
    proof {
        assert(g.take(done) =~= g);
    }
    out
}

} // verus!
