//! Runs: sequences of entries in strictly increasing key order, and what they add up to.
use vstd::prelude::*;
use crate::entry::{Entry, Row};
use crate::order::{key_lt, lemma_key_irreflexive};

verus! {

/// The rows of a sequence of entries.
pub open spec fn rows(v: Seq<Entry>) -> Seq<Row> {
    Seq::new(v.len(), |i: int| v[i]@)
}

pub proof fn lemma_rows_push(v: Seq<Entry>, e: Entry)
    ensures
        rows(v.push(e)) == rows(v).push(e@),
{
    assert(forall|k: int| 0 <= k < v.len() ==> rows(v.push(e))[k] == rows(v)[k]);
    assert(rows(v.push(e)) =~= rows(v).push(e@));
}

/// Keys strictly increase along `rs`, so that no key occurs twice.
pub open spec fn sorted_run(rs: Seq<Row>) -> bool {
    forall|i: int, j: int| 0 <= i < j < rs.len() ==> key_lt(#[trigger] rs[i].0, #[trigger] rs[j].0)
}

/// The sum of the counts of the rows of `rs` whose key is `k`.
pub open spec fn total(rs: Seq<Row>, k: Seq<Seq<char>>) -> nat
    decreases rs.len(),
{
    if rs.len() == 0 {
        0
    } else {
        total(rs.drop_last(), k) + if rs.last().0 == k {
            rs.last().1
        } else {
            0
        }
    }
}

/// The sum of all counts of `rs`.
pub open spec fn mass(rs: Seq<Row>) -> nat
    decreases rs.len(),
{
    if rs.len() == 0 {
        0
    } else {
        mass(rs.drop_last()) + rs.last().1
    }
}

pub open spec fn has_key(rs: Seq<Row>, k: Seq<Seq<char>>) -> bool {
    exists|i: int| 0 <= i < rs.len() && rs[i].0 == k
}

/// Every key that occurs in `rs`, mapped to the sum of its counts.
pub open spec fn aggregate(rs: Seq<Row>) -> Map<Seq<Seq<char>>, nat> {
    Map::new(|k: Seq<Seq<char>>| has_key(rs, k), |k: Seq<Seq<char>>| total(rs, k))
}

/// The count of `k` in `m`, zero where `m` lacks it.
pub open spec fn count_in(m: Map<Seq<Seq<char>>, nat>, k: Seq<Seq<char>>) -> nat {
    if m.contains_key(k) {
        m[k]
    } else {
        0
    }
}

/// The aggregate of two maps: every key of either, with the counts summed.
pub open spec fn sum_maps(
    m1: Map<Seq<Seq<char>>, nat>,
    m2: Map<Seq<Seq<char>>, nat>,
) -> Map<Seq<Seq<char>>, nat> {
    Map::new(
        |k: Seq<Seq<char>>| m1.contains_key(k) || m2.contains_key(k),
        |k: Seq<Seq<char>>| count_in(m1, k) + count_in(m2, k),
    )
}

pub proof fn lemma_total_concat(a: Seq<Row>, b: Seq<Row>, k: Seq<Seq<char>>)
    ensures
        total(a + b, k) == total(a, k) + total(b, k),
    decreases b.len(),
{
    if b.len() == 0 {
        assert(a + b =~= a);
    } else {
        assert((a + b).drop_last() =~= a + b.drop_last());
        lemma_total_concat(a, b.drop_last(), k);
    }
}

pub proof fn lemma_total_single(r: Row, k: Seq<Seq<char>>)
    ensures
        total(seq![r], k) == if r.0 == k {
            r.1
        } else {
            0
        },
{
    assert(seq![r].drop_last() =~= Seq::<Row>::empty());
    assert(total(Seq::<Row>::empty(), k) == 0);
}

pub proof fn lemma_push_facts(rs: Seq<Row>, r: Row, k: Seq<Seq<char>>)
    ensures
        total(rs.push(r), k) == total(rs, k) + if r.0 == k {
            r.1
        } else {
            0
        },
        mass(rs.push(r)) == mass(rs) + r.1,
        has_key(rs.push(r), k) == (has_key(rs, k) || r.0 == k),
{
    assert(rs.push(r).drop_last() =~= rs);
    if has_key(rs, k) {
        let i = choose|i: int| 0 <= i < rs.len() && rs[i].0 == k;
        assert(rs.push(r)[i].0 == k);
    }
    if has_key(rs.push(r), k) && r.0 != k {
        let i = choose|i: int| 0 <= i < rs.push(r).len() && rs.push(r)[i].0 == k;
        assert(rs[i].0 == k);
    }
    if r.0 == k {
        assert(rs.push(r)[rs.len() as int].0 == k);
    }
}

/// A row's count is part of the total of its key.
pub proof fn lemma_total_ge_row(rs: Seq<Row>, i: int)
    requires
        0 <= i < rs.len(),
    ensures
        rs[i].1 <= total(rs, rs[i].0),
    decreases rs.len(),
{
    if i < rs.len() - 1 {
        lemma_total_ge_row(rs.drop_last(), i);
    }
}

/// A key that occurs nowhere totals zero.
pub proof fn lemma_total_absent(rs: Seq<Row>, k: Seq<Seq<char>>)
    requires
        !has_key(rs, k),
    ensures
        total(rs, k) == 0,
    decreases rs.len(),
{
    if rs.len() > 0 {
        assert(!has_key(rs.drop_last(), k)) by {
            if has_key(rs.drop_last(), k) {
                let i = choose|i: int| 0 <= i < rs.drop_last().len() && rs.drop_last()[i].0 == k;
                assert(rs[i].0 == k);
            }
        }
        assert(rs.last().0 != k);
        lemma_total_absent(rs.drop_last(), k);
    }
}

/// Appending a row adds its count to its key.
pub proof fn lemma_aggregate_push(rs: Seq<Row>, r: Row)
    ensures
        aggregate(rs.push(r)) == aggregate(rs).insert(r.0, count_in(aggregate(rs), r.0) + r.1),
{
    let a = aggregate(rs.push(r));
    let b = aggregate(rs).insert(r.0, count_in(aggregate(rs), r.0) + r.1);
    assert(rs.push(r).drop_last() =~= rs);
    assert forall|k: Seq<Seq<char>>| #[trigger] a.contains_key(k) == b.contains_key(k) by {
        if has_key(rs, k) {
            let i = choose|i: int| 0 <= i < rs.len() && rs[i].0 == k;
            assert(rs.push(r)[i].0 == k);
        }
        if has_key(rs.push(r), k) && k != r.0 {
            let i = choose|i: int| 0 <= i < rs.push(r).len() && rs.push(r)[i].0 == k;
            assert(rs[i].0 == k);
        }
        if k == r.0 {
            assert(rs.push(r)[rs.len() as int].0 == k);
        }
    }
    assert forall|k: Seq<Seq<char>>| a.contains_key(k) implies #[trigger] a[k] == b[k] by {
        if k == r.0 && !has_key(rs, k) {
            lemma_total_absent(rs, k);
        }
    }
    assert(a =~= b);
}

/// In a sorted run the total of a key is the count of its one row.
pub proof fn lemma_sorted_total(rs: Seq<Row>, i: int)
    requires
        sorted_run(rs),
        0 <= i < rs.len(),
    ensures
        total(rs, rs[i].0) == rs[i].1,
    decreases rs.len(),
{
    let p = rs.drop_last();
    assert(sorted_run(p)) by {
        assert forall|x: int, y: int| 0 <= x < y < p.len() implies key_lt(#[trigger] p[x].0, #[trigger] p[y].0) by {
            assert(p[x] == rs[x] && p[y] == rs[y]);
        }
    }
    if i < rs.len() - 1 {
        assert(key_lt(rs[i].0, rs[rs.len() - 1].0));
        lemma_key_irreflexive(rs[i].0);
        assert(p[i] == rs[i]);
        lemma_sorted_total(p, i);
    } else {
        assert(!has_key(p, rs[i].0)) by {
            if has_key(p, rs[i].0) {
                let x = choose|x: int| 0 <= x < p.len() && p[x].0 == rs[i].0;
                assert(key_lt(rs[x].0, rs[i].0));
                lemma_key_irreflexive(rs[i].0);
            }
        }
        lemma_total_absent(p, rs[i].0);
    }
}

} // verus!
