//! Merging two runs into one.
use vstd::prelude::*;
use crate::entry::{Entry, Row};
use crate::order::{key_lt, lemma_key_total, lemma_key_transitive, EntryOrd};
use crate::run::{aggregate, has_key, lemma_push_facts, lemma_rows_push, lemma_total_absent, lemma_total_ge_row, lemma_sorted_total, mass, rows, sorted_run, sum_maps, total};

verus! {

/// What a merge of two runs does next, given the entry waiting on each side.
#[derive(Debug, PartialEq, Eq, Structural, Clone, Copy)]
pub enum MergeStep {
    /// Both sides are exhausted.
    Done,
    /// Emit the left entry and advance the left side.
    TakeLeft,
    /// Emit the right entry and advance the right side.
    TakeRight,
    /// The keys are equal: emit their merge and advance both sides.
    TakeBoth,
}

pub open spec fn opt_ref_row(e: Option<&Entry>) -> Option<Row> {
    match e {
        Some(x) => Some(x@),
        None => None,
    }
}

/// The next step of the merge-join.
pub open spec fn step_of(left: Option<Row>, right: Option<Row>) -> MergeStep {
    match (left, right) {
        (None, None) => MergeStep::Done,
        (Some(_), None) => MergeStep::TakeLeft,
        (None, Some(_)) => MergeStep::TakeRight,
        (Some(l), Some(r)) => if key_lt(l.0, r.0) {
            MergeStep::TakeLeft
        } else if l.0 == r.0 {
            MergeStep::TakeBoth
        } else {
            MergeStep::TakeRight
        },
    }
}

/// Decides the next step of merging two runs from the entries waiting on
/// each side (`None` for an exhausted side).
pub fn merge_step(left: Option<&Entry>, right: Option<&Entry>) -> (r: MergeStep)
    ensures
        r == step_of(opt_ref_row(left), opt_ref_row(right)),
{
    match (left, right) {
        (None, None) => MergeStep::Done,
        (Some(_), None) => MergeStep::TakeLeft,
        (None, Some(_)) => MergeStep::TakeRight,
        (Some(l), Some(r)) => match l.entry_cmp(r) {
            EntryOrd::Less => MergeStep::TakeLeft,
            EntryOrd::Equal => MergeStep::TakeBoth,
            EntryOrd::Grater => MergeStep::TakeRight,
        },
    }
}

/// No key's counts in the two runs together exceed `u128::MAX`.
pub open spec fn sums_fit(a: Seq<Row>, b: Seq<Row>) -> bool {
    forall|k: Seq<Seq<char>>| #[trigger] total(a, k) + total(b, k) <= u128::MAX
}

/// What the merge has produced after consuming `i` rows of `a` and `j` of `b`.
spec fn merged_so_far(out: Seq<Row>, a: Seq<Row>, b: Seq<Row>, i: int, j: int) -> bool {
    &&& sorted_run(out)
    &&& out.len() > 0 && i < a.len() ==> key_lt(out.last().0, a[i].0)
    &&& out.len() > 0 && j < b.len() ==> key_lt(out.last().0, b[j].0)
    &&& forall|k: Seq<Seq<char>>| #[trigger] total(out, k) == total(a.take(i), k) + total(b.take(j), k)
    &&& forall|k: Seq<Seq<char>>| #[trigger] has_key(out, k) == (has_key(a.take(i), k) || has_key(b.take(j), k))
    &&& mass(out) == mass(a.take(i)) + mass(b.take(j))
}

proof fn lemma_sorted_push(out: Seq<Row>, r: Row)
    requires
        sorted_run(out),
        out.len() > 0 ==> key_lt(out.last().0, r.0),
    ensures
        sorted_run(out.push(r)),
{
    let n = out.push(r);
    assert forall|i: int, j: int| 0 <= i < j < n.len() implies key_lt(#[trigger] n[i].0, #[trigger] n[j].0) by {
        if j == out.len() && i < out.len() - 1 {
            lemma_key_transitive(out[i].0, out.last().0, r.0);
        }
    }
}

/// Merges two runs into one: every key of either, once, with its counts
/// summed, in strictly increasing key order. `None` where the counts of a
/// key shared by both add up to more than `u128::MAX`.
pub fn merge_two_runs(a: &Vec<Entry>, b: &Vec<Entry>) -> (r: Option<Vec<Entry>>)
    requires
        sorted_run(rows(a@)),
        sorted_run(rows(b@)),
    ensures
        r is Some <==> sums_fit(rows(a@), rows(b@)),
        r is Some ==> sorted_run(rows(r->0@)),
        r is Some ==> aggregate(rows(r->0@)) == sum_maps(aggregate(rows(a@)), aggregate(rows(b@))),
        r is Some ==> mass(rows(r->0@)) == mass(rows(a@)) + mass(rows(b@)),
{
    let ghost ra = rows(a@);
    let ghost rb = rows(b@);
    let mut out: Vec<Entry> = Vec::new();
    let mut i: usize = 0;
    let mut j: usize = 0;
    proof {
        assert(ra.take(0) =~= Seq::<Row>::empty());
        assert(rb.take(0) =~= Seq::<Row>::empty());
        assert(rows(out@) =~= Seq::<Row>::empty());
    }
    loop
        invariant
            ra == rows(a@),
            rb == rows(b@),
            sorted_run(ra),
            sorted_run(rb),
            i <= a@.len(),
            j <= b@.len(),
            merged_so_far(rows(out@), ra, rb, i as int, j as int),
        ensures
            i == a@.len(),
            j == b@.len(),
        decreases a@.len() - i + b@.len() - j,
    {
        let left = if i < a.len() {
            Some(&a[i])
        } else {
            None
        };
        let right = if j < b.len() {
            Some(&b[j])
        } else {
            None
        };
        let step = merge_step(left, right);
        let ghost prev = rows(out@);
        let ghost pi = i as int;
        let ghost pj = j as int;
        proof {
            if pi < ra.len() {
                assert(ra[pi] == a@[pi]@);
                assert(ra.take(pi + 1) =~= ra.take(pi).push(ra[pi]));
            }
            if pj < rb.len() {
                assert(rb[pj] == b@[pj]@);
                assert(rb.take(pj + 1) =~= rb.take(pj).push(rb[pj]));
            }
        }
        let row: Entry;
        match step {
            MergeStep::Done => {
                break;
            },
            MergeStep::TakeLeft => {
                row = a[i].duplicate();
                i += 1;
            },
            MergeStep::TakeRight => {
                row = b[j].duplicate();
                j += 1;
                proof {
                    if pi < ra.len() {
                        lemma_key_total(ra[pi].0, rb[pj].0);
                    }
                }
            },
            MergeStep::TakeBoth => {
                if a[i].match_count.checked_add(b[j].match_count).is_none() {
                    proof {
                        lemma_total_ge_row(ra, pi);
                        lemma_total_ge_row(rb, pj);
                        assert(total(ra, ra[pi].0) + total(rb, ra[pi].0) > u128::MAX);
                    }
                    return None;
                }
                row = a[i].merge(&b[j]);
                i += 1;
                j += 1;
            },
        }
        let ghost x = row@;
        let ghost prev_out = out@;
        out.push(row);
        proof {
            lemma_rows_push(prev_out, row);
            let cur = rows(out@);
            assert(cur == prev.push(x));
            lemma_sorted_push(prev, x);
            assert forall|k: Seq<Seq<char>>| #[trigger] total(cur, k) == total(ra.take(i as int), k) + total(rb.take(j as int), k) by {
                lemma_push_facts(prev, x, k);
                if i as int > pi {
                    lemma_push_facts(ra.take(pi), ra[pi], k);
                }
                if j as int > pj {
                    lemma_push_facts(rb.take(pj), rb[pj], k);
                }
            }
            assert forall|k: Seq<Seq<char>>| #[trigger] has_key(cur, k) == (has_key(ra.take(i as int), k) || has_key(rb.take(j as int), k)) by {
                lemma_push_facts(prev, x, k);
                if i as int > pi {
                    lemma_push_facts(ra.take(pi), ra[pi], k);
                }
                if j as int > pj {
                    lemma_push_facts(rb.take(pj), rb[pj], k);
                }
            }
            let k0 = x.0;
            lemma_push_facts(prev, x, k0);
            if i as int > pi {
                lemma_push_facts(ra.take(pi), ra[pi], k0);
            }
            if j as int > pj {
                lemma_push_facts(rb.take(pj), rb[pj], k0);
            }
            assert(cur.last() == x);
            assert(sorted_run(cur));
            assert(cur.len() > 0 && i < ra.len() ==> key_lt(cur.last().0, ra[i as int].0));
            assert(cur.len() > 0 && j < rb.len() ==> key_lt(cur.last().0, rb[j as int].0));
            assert(mass(cur) == mass(ra.take(i as int)) + mass(rb.take(j as int)));
            assert(merged_so_far(cur, ra, rb, i as int, j as int));
        }
    }
    proof {
        assert(ra.take(i as int) =~= ra);
        assert(rb.take(j as int) =~= rb);
        let cur = rows(out@);
        let m = sum_maps(aggregate(ra), aggregate(rb));
        assert forall|k: Seq<Seq<char>>| #[trigger] aggregate(cur).contains_key(k) implies aggregate(cur)[k] == m[k] by {
            if !has_key(ra, k) {
                lemma_total_absent(ra, k);
            }
            if !has_key(rb, k) {
                lemma_total_absent(rb, k);
            }
        }
        assert(aggregate(cur) =~= m);
        assert forall|k: Seq<Seq<char>>| #[trigger] total(ra, k) + total(rb, k) <= u128::MAX by {
            assert(total(cur, k) == total(ra, k) + total(rb, k));
            if has_key(cur, k) {
                let x = choose|x: int| 0 <= x < cur.len() && cur[x].0 == k;
                lemma_sorted_total(cur, x);
                assert(cur[x] == out@[x]@);
            } else {
                lemma_total_absent(cur, k);
            }
        }
    }
    Some(out)
}

} // verus!
