//! The counting pass: raw corpus lines to one sorted, deduplicated run.
use vstd::prelude::*;
use crate::counter::EntryCounter;
use crate::entry::{raw_line_row, string_views, Entry, Row};
use crate::run::{aggregate, has_key, lemma_aggregate_push, lemma_total_absent, lemma_total_concat, lemma_push_facts, rows, sorted_run, total};

verus! {

/// The entries that the parsable lines among `lines` stand for, in order.
pub open spec fn raw_rows(lines: Seq<Seq<char>>) -> Seq<Row>
    decreases lines.len(),
{
    if lines.len() == 0 {
        Seq::empty()
    } else {
        let p = raw_rows(lines.drop_last());
        match raw_line_row(lines.last()) {
            Some(r) => p.push(r),
            None => p,
        }
    }
}

/// No key's counts in `rs` add up to more than `u128::MAX`.
pub open spec fn counts_fit(rs: Seq<Row>) -> bool {
    forall|k: Seq<Seq<char>>| #[trigger] total(rs, k) <= u128::MAX
}

pub proof fn lemma_raw_rows_concat(a: Seq<Seq<char>>, b: Seq<Seq<char>>)
    ensures
        raw_rows(a + b) == raw_rows(a) + raw_rows(b),
    decreases b.len(),
{
    if b.len() == 0 {
        assert(a + b =~= a);
        assert(raw_rows(a) + raw_rows(b) =~= raw_rows(a));
    } else {
        assert((a + b).drop_last() =~= a + b.drop_last());
        lemma_raw_rows_concat(a, b.drop_last());
        match raw_line_row(b.last()) {
            Some(r) => {
                assert(raw_rows(a) + raw_rows(b) =~= (raw_rows(a) + raw_rows(b.drop_last())).push(r));
            },
            None => {},
        }
    }
}

/// Counts a batch of raw corpus lines: lines that do not parse are skipped,
/// and the rest are summed per key into one run. `None` where the counts of
/// some key add up to more than `u128::MAX`.
pub fn count_data(lines: &Vec<String>) -> (r: Option<Vec<Entry>>)
    ensures
        r is Some <==> counts_fit(raw_rows(string_views(lines@))),
        r is Some ==> sorted_run(rows(r->0@)),
        r is Some ==> aggregate(rows(r->0@)) == aggregate(raw_rows(string_views(lines@))),
{
    let ghost ls = string_views(lines@);
    let mut counter = EntryCounter::new();
    let mut i: usize = 0;
    proof {
        assert(ls.take(0) =~= Seq::<Seq<char>>::empty());
        assert(aggregate(Seq::<Row>::empty()) =~= Map::<Seq<Seq<char>>, nat>::empty());
    }
    while i < lines.len()
        invariant
            ls == string_views(lines@),
            i <= ls.len(),
            counter.wf(),
            counter@ == aggregate(raw_rows(ls.take(i as int))),
        decreases ls.len() - i,
    {
        let ghost before = raw_rows(ls.take(i as int));
        proof {
            assert(ls.take(i + 1).drop_last() =~= ls.take(i as int));
            assert(ls.take(i + 1).last() == lines@[i as int]@);
        }
        match Entry::from_raw_line(lines[i].as_str()) {
            Some(e) => {
                let held = counter.count_of(&e);
                proof {
                    if !has_key(before, e@.0) {
                        lemma_total_absent(before, e@.0);
                    }
                }
                match held.checked_add(e.match_count) {
                    Some(_) => {
                        counter.add(&e);
                        proof {
                            lemma_aggregate_push(before, e@);
                        }
                    },
                    None => {
                        proof {
                            let upto = ls.take(i + 1);
                            let rest = ls.skip(i + 1);
                            assert(ls =~= upto + rest);
                            lemma_raw_rows_concat(upto, rest);
                            lemma_total_concat(raw_rows(upto), raw_rows(rest), e@.0);
                            lemma_push_facts(before, e@, e@.0);
                            assert(total(raw_rows(ls), e@.0) > u128::MAX);
                        }
                        return None;
                    },
                }
            },
            None => {},
        }
        i += 1;
    }
    proof {
        assert(ls.take(i as int) =~= ls);
    }
    let out = counter.entries();
    proof {
        let rs = raw_rows(ls);
        assert forall|k: Seq<Seq<char>>| #[trigger] total(rs, k) <= u128::MAX by {
            if has_key(rs, k) {
                assert(aggregate(rows(out@)).contains_key(k));
                let j = choose|j: int| 0 <= j < rows(out@).len() && rows(out@)[j].0 == k;
                crate::run::lemma_sorted_total(rows(out@), j);
                assert(rows(out@)[j] == out@[j]@);
                assert(aggregate(rs)[k] == total(rs, k));
                assert(aggregate(rows(out@))[k] == total(rows(out@), k));
                assert(total(rows(out@), k) == out@[j].match_count as nat);
            } else {
                lemma_total_absent(rs, k);
            }
        }
    }
    Some(out)
}

} // verus!
