//! The cascading merge: pairs of runs are merged pass after pass until one run is left.
use vstd::prelude::*;
use crate::entry::{Entry, Row};
use crate::ingest::counts_fit;
use crate::merge::merge_two_runs;
use crate::run::{aggregate, count_in, sum_maps, has_key, lemma_rows_push, lemma_sorted_total, lemma_total_absent, lemma_total_concat, rows, sorted_run, total};

verus! {

/// The rows of each run.
pub open spec fn runs_view(v: Seq<Vec<Entry>>) -> Seq<Seq<Row>> {
    Seq::new(v.len(), |i: int| rows(v[i]@))
}

/// All rows of all runs, run after run.
pub open spec fn flat(rs: Seq<Seq<Row>>) -> Seq<Row>
    decreases rs.len(),
{
    if rs.len() == 0 {
        Seq::empty()
    } else {
        flat(rs.drop_last()) + rs.last()
    }
}

pub open spec fn all_sorted(rs: Seq<Seq<Row>>) -> bool {
    forall|i: int| 0 <= i < rs.len() ==> sorted_run(#[trigger] rs[i])
}

/// `x` and `y` hold the same keys with the same totals.
pub open spec fn same_counts(x: Seq<Row>, y: Seq<Row>) -> bool {
    &&& forall|k: Seq<Seq<char>>| #[trigger] total(x, k) == total(y, k)
    &&& forall|k: Seq<Seq<char>>| #[trigger] has_key(x, k) == has_key(y, k)
}

pub proof fn lemma_has_key_concat(a: Seq<Row>, b: Seq<Row>, k: Seq<Seq<char>>)
    ensures
        has_key(a + b, k) == (has_key(a, k) || has_key(b, k)),
{
    if has_key(a, k) {
        let i = choose|i: int| 0 <= i < a.len() && a[i].0 == k;
        assert((a + b)[i].0 == k);
    }
    if has_key(b, k) {
        let i = choose|i: int| 0 <= i < b.len() && b[i].0 == k;
        assert((a + b)[a.len() + i].0 == k);
    }
    if has_key(a + b, k) {
        let i = choose|i: int| 0 <= i < (a + b).len() && (a + b)[i].0 == k;
        if i < a.len() {
            assert(a[i].0 == k);
        } else {
            assert(b[i - a.len()].0 == k);
        }
    }
}

proof fn lemma_same_counts_concat(x1: Seq<Row>, y1: Seq<Row>, x2: Seq<Row>, y2: Seq<Row>)
    requires
        same_counts(x1, y1),
        same_counts(x2, y2),
    ensures
        same_counts(x1 + x2, y1 + y2),
{
    assert forall|k: Seq<Seq<char>>| #[trigger] total(x1 + x2, k) == total(y1 + y2, k) by {
        lemma_total_concat(x1, x2, k);
        lemma_total_concat(y1, y2, k);
    }
    assert forall|k: Seq<Seq<char>>| #[trigger] has_key(x1 + x2, k) == has_key(y1 + y2, k) by {
        lemma_has_key_concat(x1, x2, k);
        lemma_has_key_concat(y1, y2, k);
    }
}

proof fn lemma_same_counts_aggregate(x: Seq<Row>, y: Seq<Row>)
    requires
        same_counts(x, y),
    ensures
        aggregate(x) == aggregate(y),
{
    assert(aggregate(x) =~= aggregate(y));
}

pub proof fn lemma_flat_concat(a: Seq<Seq<Row>>, b: Seq<Seq<Row>>)
    ensures
        flat(a + b) == flat(a) + flat(b),
    decreases b.len(),
{
    if b.len() == 0 {
        assert(a + b =~= a);
        assert(flat(a) + flat(b) =~= flat(a));
    } else {
        assert((a + b).drop_last() =~= a + b.drop_last());
        lemma_flat_concat(a, b.drop_last());
        assert(flat(a) + flat(b) =~= flat(a) + flat(b.drop_last()) + b.last());
    }
}

proof fn lemma_runs_view_push(v: Seq<Vec<Entry>>, x: Vec<Entry>)
    ensures
        runs_view(v.push(x)) == runs_view(v).push(rows(x@)),
{
    assert(forall|k: int| 0 <= k < v.len() ==> runs_view(v.push(x))[k] == runs_view(v)[k]);
    assert(runs_view(v.push(x)) =~= runs_view(v).push(rows(x@)));
}

/// A copy of a run.
fn copy_run(v: &Vec<Entry>) -> (r: Vec<Entry>)
    ensures
        rows(r@) == rows(v@),
{
    let mut out: Vec<Entry> = Vec::new();
    let mut i: usize = 0;
    while i < v.len()
        invariant
            i <= v@.len(),
            rows(out@) == rows(v@).take(i as int),
        decreases v@.len() - i,
    {
        let ghost prev = out@;
        let e = v[i].duplicate();
        out.push(e);
        proof {
            lemma_rows_push(prev, e);
            assert(rows(out@) =~= rows(v@).take(i + 1));
        }
        i += 1;
    }
    proof {
        assert(rows(v@).take(i as int) =~= rows(v@));
    }
    out
}

/// One pass of the cascade: runs 0 and 1, 2 and 3, ... are merged pairwise;
/// an odd last run is carried over untouched. `None` where a merge overflows.
pub fn merge_pass(runs: &Vec<Vec<Entry>>) -> (r: Option<Vec<Vec<Entry>>>)
    requires
        all_sorted(runs_view(runs@)),
    ensures
        r is None ==> !counts_fit(flat(runs_view(runs@))),
        r is Some ==> r->0@.len() == (runs@.len() + 1) / 2,
        r is Some ==> all_sorted(runs_view(r->0@)),
        r is Some ==> same_counts(flat(runs_view(r->0@)), flat(runs_view(runs@))),
{
    let ghost rv = runs_view(runs@);
    let mut out: Vec<Vec<Entry>> = Vec::new();
    let mut i: usize = 0;
    proof {
        assert(rv.take(0) =~= Seq::<Seq<Row>>::empty());
        assert(runs_view(out@) =~= Seq::<Seq<Row>>::empty());
    }
    while i < runs.len()
        invariant
            rv == runs_view(runs@),
            all_sorted(rv),
            i <= runs@.len(),
            i % 2 == 0,
            out@.len() == i / 2,
            all_sorted(runs_view(out@)),
            same_counts(flat(runs_view(out@)), flat(rv.take(i as int))),
        decreases runs@.len() - i,
    {
        let ghost prev = out@;
        let ghost pi = i as int;
        assert(rv[pi] == rows(runs@[pi]@));
        assert(sorted_run(rv[pi]));
        assert(rv.take(pi + 1).drop_last() =~= rv.take(pi));
        if i + 1 < runs.len() {
            assert(rv[pi + 1] == rows(runs@[pi + 1]@));
            assert(sorted_run(rv[pi + 1]));
            assert(rv.take(pi + 2).drop_last() =~= rv.take(pi + 1));
            let ghost ra = rv[pi];
            let ghost rb = rv[pi + 1];
            assert(rv.take(pi + 2).last() == rb);
            assert(rv.take(pi + 1).last() == ra);
            assert(flat(rv.take(pi + 1)) == flat(rv.take(pi)) + ra);
            assert(flat(rv.take(pi + 2)) == flat(rv.take(pi + 1)) + rb);
            match merge_two_runs(&runs[i], &runs[i + 1]) {
                Some(m) => {
                    out.push(m);
                    proof {
                        lemma_runs_view_push(prev, m);
                        let rm = rows(m@);
                        assert(aggregate(rm) == sum_maps(aggregate(ra), aggregate(rb)));
                        assert forall|k: Seq<Seq<char>>| #[trigger] total(rm, k) == total(ra + rb, k) by {
                            lemma_total_concat(ra, rb, k);
                            if !has_key(ra, k) {
                                lemma_total_absent(ra, k);
                            }
                            if !has_key(rb, k) {
                                lemma_total_absent(rb, k);
                            }
                            if !has_key(rm, k) {
                                lemma_total_absent(rm, k);
                                assert(!aggregate(rm).contains_key(k));
                            } else {
                                assert(aggregate(rm).contains_key(k));
                                assert(aggregate(rm)[k] == total(rm, k));
                                assert(sum_maps(aggregate(ra), aggregate(rb))[k] == count_in(aggregate(ra), k) + count_in(aggregate(rb), k));
                            }
                        }
                        assert forall|k: Seq<Seq<char>>| #[trigger] has_key(rm, k) == has_key(ra + rb, k) by {
                            lemma_has_key_concat(ra, rb, k);
                            assert(aggregate(rm).contains_key(k) == has_key(rm, k));
                        }
                        assert(flat(rv.take(pi + 2)) == flat(rv.take(pi)) + ra + rb);
                        assert(flat(rv.take(pi)) + ra + rb =~= flat(rv.take(pi)) + (ra + rb));
                        lemma_same_counts_concat(flat(runs_view(prev)), flat(rv.take(pi)), rm, ra + rb);
                        assert(runs_view(prev).push(rm).drop_last() =~= runs_view(prev));
                        assert(flat(runs_view(out@)) == flat(runs_view(prev)) + rm);
                        assert forall|x: int| 0 <= x < runs_view(out@).len() implies sorted_run(#[trigger] runs_view(out@)[x]) by {
                            if x < prev.len() {
                                assert(runs_view(out@)[x] == runs_view(prev)[x]);
                            }
                        }
                    }
                },
                None => {
                    proof {
                        let k = choose|k: Seq<Seq<char>>| !(#[trigger] total(ra, k) + total(rb, k) <= u128::MAX);
                        assert(rv =~= rv.take(pi + 2) + rv.skip(pi + 2));
                        lemma_flat_concat(rv.take(pi + 2), rv.skip(pi + 2));
                        assert(flat(rv.take(pi + 2)) == flat(rv.take(pi)) + ra + rb);
                        lemma_total_concat(flat(rv.take(pi + 2)), flat(rv.skip(pi + 2)), k);
                        lemma_total_concat(flat(rv.take(pi)) + ra, rb, k);
                        lemma_total_concat(flat(rv.take(pi)), ra, k);
                        assert(!(total(flat(rv), k) <= u128::MAX));
                    }
                    return None;
                },
            }
            i += 2;
        } else {
            assert(rv.take(pi + 1).last() == rv[pi]);
            let c = copy_run(&runs[i]);
            out.push(c);
            proof {
                lemma_runs_view_push(prev, c);
                let rc = rows(c@);
                assert(runs_view(prev).push(rc).drop_last() =~= runs_view(prev));
                assert(flat(runs_view(out@)) == flat(runs_view(prev)) + rc);
                assert(flat(rv.take(pi + 1)) == flat(rv.take(pi)) + rc);
                lemma_same_counts_concat(flat(runs_view(prev)), flat(rv.take(pi)), rc, rc);
                assert forall|x: int| 0 <= x < runs_view(out@).len() implies sorted_run(#[trigger] runs_view(out@)[x]) by {
                    if x < prev.len() {
                        assert(runs_view(out@)[x] == runs_view(prev)[x]);
                    }
                }
            }
            i += 1;
            proof {
                assert(i == runs@.len());
                assert(rv.take(i as int) =~= rv);
            }
            return Some(out);
        }
    }
    proof {
        assert(rv.take(i as int) =~= rv);
    }
    Some(out)
}

/// A sorted run of `u128` counts never totals more than `u128::MAX` for a key.
pub proof fn lemma_run_fits(v: Seq<Entry>)
    requires
        sorted_run(rows(v)),
    ensures
        counts_fit(rows(v)),
{
    let rs = rows(v);
    assert forall|k: Seq<Seq<char>>| #[trigger] total(rs, k) <= u128::MAX by {
        if has_key(rs, k) {
            let x = choose|x: int| 0 <= x < rs.len() && rs[x].0 == k;
            lemma_sorted_total(rs, x);
            assert(rs[x] == v[x]@);
        } else {
            lemma_total_absent(rs, k);
        }
    }
}

pub proof fn lemma_aggregate_same_counts(x: Seq<Row>, y: Seq<Row>)
    requires
        aggregate(x) == aggregate(y),
    ensures
        same_counts(x, y),
{
    assert forall|k: Seq<Seq<char>>| #[trigger] has_key(x, k) == has_key(y, k) by {
        assert(aggregate(x).dom().contains(k) == has_key(x, k));
        assert(aggregate(y).dom().contains(k) == has_key(y, k));
    }
    assert forall|k: Seq<Seq<char>>| #[trigger] total(x, k) == total(y, k) by {
        assert(aggregate(x).dom().contains(k) == has_key(x, k));
        assert(aggregate(y).dom().contains(k) == has_key(y, k));
        if has_key(x, k) {
            assert(aggregate(x)[k] == total(x, k));
            assert(aggregate(y)[k] == total(y, k));
        } else {
            lemma_total_absent(x, k);
            lemma_total_absent(y, k);
        }
    }
}

/// Merges any number of runs into one by repeated passes: every key of any
/// run, once, with all its counts summed, in strictly increasing key order.
/// No runs give the empty run, and one run is returned as it is. `None` where
/// the counts of some key add up to more than `u128::MAX`.
pub fn merge_runs(runs: &Vec<Vec<Entry>>) -> (r: Option<Vec<Entry>>)
    requires
        all_sorted(runs_view(runs@)),
    ensures
        r is Some <==> counts_fit(flat(runs_view(runs@))),
        r is Some ==> sorted_run(rows(r->0@)),
        r is Some ==> aggregate(rows(r->0@)) == aggregate(flat(runs_view(runs@))),
        runs@.len() == 0 ==> r is Some && r->0@.len() == 0,
        runs@.len() == 1 ==> r is Some && rows(r->0@) == rows(runs@[0]@),
{
    let ghost all = flat(runs_view(runs@));
    if runs.len() == 0 {
        let empty: Vec<Entry> = Vec::new();
        proof {
            assert(runs_view(runs@) =~= Seq::<Seq<Row>>::empty());
            assert(rows(empty@) =~= all);
            lemma_run_fits(empty@);
        }
        return Some(empty);
    }
    if runs.len() == 1 {
        let c = copy_run(&runs[0]);
        proof {
            assert(runs_view(runs@).drop_last() =~= Seq::<Seq<Row>>::empty());
            assert(flat(Seq::<Seq<Row>>::empty()) == Seq::<Row>::empty());
            assert(runs_view(runs@).last() == rows(runs@[0]@));
            assert(Seq::<Row>::empty() + rows(runs@[0]@) =~= rows(runs@[0]@));
            assert(all == rows(runs@[0]@));
            assert(sorted_run(runs_view(runs@)[0]));
            lemma_run_fits(c@);
        }
        return Some(c);
    }
    let mut cur = match merge_pass(runs) {
        Some(c) => c,
        None => {
            return None;
        },
    };
    while cur.len() > 1
        invariant
            all == flat(runs_view(runs@)),
            runs@.len() > 1,
            all_sorted(runs_view(cur@)),
            cur@.len() >= 1,
            same_counts(flat(runs_view(cur@)), all),
        decreases cur@.len(),
    {
        match merge_pass(&cur) {
            Some(n) => {
                cur = n;
            },
            None => {
                proof {
                    let k = choose|k: Seq<Seq<char>>| !(#[trigger] total(flat(runs_view(cur@)), k) <= u128::MAX);
                    assert(total(all, k) == total(flat(runs_view(cur@)), k));
                }
                return None;
            },
        }
    }
    let res = copy_run(&cur[0]);
    proof {
        let cv = runs_view(cur@);
        assert(cv.drop_last() =~= Seq::<Seq<Row>>::empty());
        assert(flat(Seq::<Seq<Row>>::empty()) == Seq::<Row>::empty());
        assert(cv.last() == rows(cur@[0]@));
        assert(rows(res@) == rows(cur@[0]@));
        assert(Seq::<Row>::empty() + cv[0] =~= cv[0]);
        assert(flat(cv) == rows(res@));
        assert(sorted_run(cv[0]));
        lemma_same_counts_aggregate(rows(res@), all);
        lemma_run_fits(res@);
        assert forall|k: Seq<Seq<char>>| #[trigger] total(all, k) <= u128::MAX by {
            assert(total(rows(res@), k) == total(all, k));
        }
    }
    Some(res)
}

} // verus!
