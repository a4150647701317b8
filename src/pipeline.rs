//! The whole aggregation in memory: counting in batches, then the cascade.
use vstd::prelude::*;
use crate::cascade::{lemma_flat_concat, all_sorted, flat, lemma_aggregate_same_counts, lemma_has_key_concat, merge_runs, runs_view, same_counts};
use crate::entry::{string_views, Entry, Row};
use crate::ingest::{count_data, counts_fit, lemma_raw_rows_concat, raw_rows};
use crate::run::{aggregate, has_key, lemma_total_concat, rows, sorted_run, total};

verus! {

/// Aggregates raw corpus lines: they are counted `batch` lines at a time into
/// runs, and the runs, newest first, are merged pass after pass into one. The result holds
/// every key of a parsable line once, with the sum of its counts, in strictly
/// increasing key order; `None` where some key's counts add up to more than
/// `u128::MAX`.
pub fn run(lines: &Vec<String>, batch: usize) -> (r: Option<Vec<Entry>>)
    requires
        batch > 0,
    ensures
        r is Some <==> counts_fit(raw_rows(string_views(lines@))),
        r is Some ==> sorted_run(rows(r->0@)),
        r is Some ==> aggregate(rows(r->0@)) == aggregate(raw_rows(string_views(lines@))),
{
    let ghost ls = string_views(lines@);
    let mut runs: Vec<Vec<Entry>> = Vec::new();
    let mut start: usize = 0;
    proof {
        assert(ls.take(0) =~= Seq::<Seq<char>>::empty());
        assert(runs_view(runs@) =~= Seq::<Seq<Row>>::empty());
        assert(raw_rows(Seq::<Seq<char>>::empty()) == Seq::<Row>::empty());
        assert(flat(Seq::<Seq<Row>>::empty()) == Seq::<Row>::empty());
    }
    while start < lines.len()
        invariant
            ls == string_views(lines@),
            batch > 0,
            start <= ls.len(),
            all_sorted(runs_view(runs@)),
            same_counts(flat(runs_view(runs@)), raw_rows(ls.take(start as int))),
        decreases ls.len() - start,
    {
        let end: usize = if lines.len() - start < batch {
            lines.len()
        } else {
            start + batch
        };
        let mut chunk: Vec<String> = Vec::new();
        let mut j: usize = start;
        proof {
            assert(string_views(chunk@) =~= ls.subrange(start as int, start as int));
        }
        while j < end
            invariant
                ls == string_views(lines@),
                start <= j <= end <= ls.len(),
                string_views(chunk@) == ls.subrange(start as int, j as int),
            decreases end - j,
        {
            let ghost prev = chunk@;
            let s = lines[j].clone();
            chunk.push(s);
            proof {
                crate::entry::lemma_string_views_push(prev, s);
                assert(string_views(chunk@) =~= ls.subrange(start as int, j + 1));
            }
            j += 1;
        }
        let ghost cv = ls.subrange(start as int, end as int);
        proof {
            assert(ls.take(end as int) =~= ls.take(start as int) + cv);
            lemma_raw_rows_concat(ls.take(start as int), cv);
        }
        match count_data(&chunk) {
            Some(one) => {
                let ghost prev = runs@;
                runs.insert(0, one);
                proof {
                    let ro = rows(one@);
                    let pv = runs_view(prev);
                    assert(runs_view(runs@) =~= seq![ro] + pv);
                    lemma_flat_concat(seq![ro], pv);
                    assert(seq![ro].drop_last() =~= Seq::<Seq<Row>>::empty());
                    assert(flat(Seq::<Seq<Row>>::empty()) == Seq::<Row>::empty());
                    assert(Seq::<Row>::empty() + ro =~= ro);
                    assert(flat(runs_view(runs@)) == ro + flat(pv));
                    lemma_aggregate_same_counts(ro, raw_rows(cv));
                    let a = flat(pv);
                    let b = raw_rows(ls.take(start as int));
                    assert forall|k: Seq<Seq<char>>| #[trigger] total(ro + a, k) == total(b + raw_rows(cv), k) by {
                        lemma_total_concat(ro, a, k);
                        lemma_total_concat(b, raw_rows(cv), k);
                    }
                    assert forall|k: Seq<Seq<char>>| #[trigger] has_key(ro + a, k) == has_key(b + raw_rows(cv), k) by {
                        lemma_has_key_concat(ro, a, k);
                        lemma_has_key_concat(b, raw_rows(cv), k);
                    }
                    assert forall|x: int| 0 <= x < runs_view(runs@).len() implies sorted_run(#[trigger] runs_view(runs@)[x]) by {
                        if x > 0 {
                            assert(runs_view(runs@)[x] == pv[x - 1]);
                        }
                    }
                }
            },
            None => {
                proof {
                    let k = choose|k: Seq<Seq<char>>| !(#[trigger] total(raw_rows(cv), k) <= u128::MAX);
                    let rest = ls.skip(end as int);
                    assert(ls =~= ls.take(end as int) + rest);
                    lemma_raw_rows_concat(ls.take(end as int), rest);
                    lemma_total_concat(raw_rows(ls.take(end as int)), raw_rows(rest), k);
                    lemma_total_concat(raw_rows(ls.take(start as int)), raw_rows(cv), k);
                    assert(!(total(raw_rows(ls), k) <= u128::MAX));
                }
                return None;
            },
        }
        start = end;
    }
    proof {
        assert(ls.take(start as int) =~= ls);
    }
    let r = merge_runs(&runs);
    proof {
        let f = flat(runs_view(runs@));
        let rr = raw_rows(ls);
        if r is Some {
            assert(aggregate(f) =~= aggregate(rr));
            assert forall|k: Seq<Seq<char>>| #[trigger] total(rr, k) <= u128::MAX by {
                assert(total(f, k) == total(rr, k));
            }
        } else {
            let k = choose|k: Seq<Seq<char>>| !(#[trigger] total(f, k) <= u128::MAX);
            assert(total(f, k) == total(rr, k));
        }
    }
    r
}

} // verus!
