//! The in-memory aggregator of one counting cycle.
use vstd::prelude::*;
use crate::entry::Entry;
use crate::order::{key_lt, lemma_key_irreflexive, lemma_key_total, lemma_key_transitive, EntryOrd};
use crate::run::{lemma_sorted_total, aggregate, count_in, has_key, lemma_total_absent, lemma_total_concat, lemma_total_single, lemma_rows_push, rows, sorted_run, total};

verus! {

/// Sums the counts of the entries fed to it, one entry per key, in key order.
pub struct EntryCounter {
    data: Vec<Entry>,
}

impl View for EntryCounter {
    type V = Map<Seq<Seq<char>>, nat>;

    /// Every key fed so far, with the sum of its counts.
    closed spec fn view(&self) -> Map<Seq<Seq<char>>, nat> {
        aggregate(rows(self.data@))
    }
}

impl EntryCounter {
    /// The entries are held in strictly increasing key order.
    pub closed spec fn wf(&self) -> bool {
        sorted_run(rows(self.data@))
    }

    pub fn new() -> (r: EntryCounter)
        ensures
            r.wf(),
            r@ == Map::<Seq<Seq<char>>, nat>::empty(),
    {
        let r = EntryCounter { data: Vec::new() };
        assert(r@ =~= Map::<Seq<Seq<char>>, nat>::empty());
        r
    }

    /// The number of distinct keys held.
    pub fn len(&self) -> (r: usize)
        requires
            self.wf(),
        ensures
            r == self@.dom().len(),
    {
        proof {
            lemma_sorted_dom(rows(self.data@));
        }
        self.data.len()
    }

    /// The first position whose key is not below the key of `entry`.
    fn find(&self, entry: &Entry) -> (pos: usize)
        requires
            self.wf(),
        ensures
            pos <= self.data@.len(),
            forall|i: int| 0 <= i < pos ==> key_lt(#[trigger] self.data@[i]@.0, entry@.0),
            forall|i: int| pos <= i < self.data@.len() ==> !key_lt(#[trigger] self.data@[i]@.0, entry@.0),
    {
        let ghost rs = rows(self.data@);
        let mut lo: usize = 0;
        let mut hi: usize = self.data.len();
        while lo < hi
            invariant
                self.wf(),
                rs == rows(self.data@),
                lo <= hi <= self.data@.len(),
                forall|i: int| 0 <= i < lo ==> key_lt(#[trigger] self.data@[i]@.0, entry@.0),
                forall|i: int| hi <= i < self.data@.len() ==> !key_lt(#[trigger] self.data@[i]@.0, entry@.0),
            decreases hi - lo,
        {
            let mid = lo + (hi - lo) / 2;
            if self.data[mid].entry_cmp(entry) == EntryOrd::Less {
                proof {
                    assert forall|i: int| 0 <= i < mid + 1 implies key_lt(#[trigger] self.data@[i]@.0, entry@.0) by {
                        if i < mid {
                            assert(rs[i].0 == self.data@[i]@.0 && rs[mid as int].0 == self.data@[mid as int]@.0);
                            lemma_key_transitive(self.data@[i]@.0, self.data@[mid as int]@.0, entry@.0);
                        }
                    }
                }
                lo = mid + 1;
            } else {
                proof {
                    assert forall|i: int| mid <= i < self.data@.len() implies !key_lt(#[trigger] self.data@[i]@.0, entry@.0) by {
                        if mid < i && key_lt(self.data@[i]@.0, entry@.0) {
                            assert(rs[i].0 == self.data@[i]@.0 && rs[mid as int].0 == self.data@[mid as int]@.0);
                            lemma_key_transitive(self.data@[mid as int]@.0, self.data@[i]@.0, entry@.0);
                        }
                    }
                }
                hi = mid;
            }
        }
        lo
    }

    /// Adds the count of `entry` to its key, which is taken in if new.
    pub fn add(&mut self, entry: &Entry)
        requires
            old(self).wf(),
            count_in(old(self)@, entry@.0) + entry@.1 <= u128::MAX,
        ensures
            final(self).wf(),
            final(self)@ == old(self)@.insert(entry@.0, count_in(old(self)@, entry@.0) + entry@.1),
    {
        let ghost rs = rows(self.data@);
        let ghost k = entry@.0;
        let pos = self.find(entry);
        let ghost target = old(self)@.insert(k, count_in(old(self)@, k) + entry@.1);
        proof {
            assert(rs =~= rs.take(pos as int) + rs.skip(pos as int));
        }
        if pos < self.data.len() && self.data[pos].entry_cmp(entry) == EntryOrd::Equal {
            let ghost before = rs.take(pos as int);
            let ghost after = rs.skip(pos as int + 1);
            proof {
                assert(rs =~= before + seq![rs[pos as int]] + after);
                assert(has_key(rs, k));
                lemma_total_concat(before + seq![rs[pos as int]], after, k);
                lemma_total_concat(before, seq![rs[pos as int]], k);
                assert(seq![rs[pos as int]].drop_last() =~= Seq::<(Seq<Seq<char>>, nat)>::empty());
            }
            let sum = self.data[pos].match_count + entry.match_count;
            let updated = Entry { ngram: entry.duplicate().ngram, match_count: sum };
            self.data.set(pos, updated);
            proof {
                let ns = rows(self.data@);
                let row = (k, sum as nat);
                assert(ns =~= before + seq![row] + after);
                assert(seq![row].drop_last() =~= Seq::<(Seq<Seq<char>>, nat)>::empty());
                assert forall|j: Seq<Seq<char>>| #[trigger] total(ns, j) == total(rs, j) + (if j == k { entry@.1 } else { 0 }) by {
                    lemma_total_concat(before + seq![row], after, j);
                    lemma_total_concat(before, seq![row], j);
                    lemma_total_concat(before + seq![rs[pos as int]], after, j);
                    lemma_total_concat(before, seq![rs[pos as int]], j);
                }
                assert forall|i: int, j: int| 0 <= i < j < ns.len() implies key_lt(#[trigger] ns[i].0, #[trigger] ns[j].0) by {
                    assert(ns[i].0 == rs[i].0 && ns[j].0 == rs[j].0);
                }
                assert forall|j: Seq<Seq<char>>| #[trigger] has_key(ns, j) == target.contains_key(j) by {
                    if has_key(rs, j) {
                        let i = choose|i: int| 0 <= i < rs.len() && rs[i].0 == j;
                        assert(ns[i].0 == j);
                    }
                    if has_key(ns, j) {
                        let i = choose|i: int| 0 <= i < ns.len() && ns[i].0 == j;
                        assert(rs[i].0 == j);
                    }
                }
                assert(self@ =~= target);
            }
        } else {
            let ghost before = rs.take(pos as int);
            let ghost after = rs.skip(pos as int);
            let ghost row = entry@;
            proof {
                if pos < self.data@.len() {
                    lemma_key_total(self.data@[pos as int]@.0, k);
                }
                assert(!has_key(rs, k)) by {
                    if has_key(rs, k) {
                        let i = choose|i: int| 0 <= i < rs.len() && rs[i].0 == k;
                        assert(rs[i].0 == self.data@[i]@.0);
                        lemma_key_irreflexive(k);
                        if i > pos {
                            assert(rs[pos as int].0 == self.data@[pos as int]@.0);
                        }
                    }
                }
                lemma_total_absent(rs, k);
            }
            self.data.insert(pos, entry.duplicate());
            proof {
                let ns = rows(self.data@);
                assert(ns =~= before + seq![row] + after);
                assert(seq![row].drop_last() =~= Seq::<(Seq<Seq<char>>, nat)>::empty());
                assert forall|j: Seq<Seq<char>>| #[trigger] total(ns, j) == total(rs, j) + (if j == k { entry@.1 } else { 0 }) by {
                    lemma_total_concat(before + seq![row], after, j);
                    lemma_total_concat(before, seq![row], j);
                    lemma_total_concat(before, after, j);
                    assert(rs == before + after);
                    lemma_total_single(row, j);
                }
                assert forall|i: int, j: int| 0 <= i < j < ns.len() implies key_lt(#[trigger] ns[i].0, #[trigger] ns[j].0) by {
                    if j < pos {
                        assert(ns[i].0 == rs[i].0 && ns[j].0 == rs[j].0);
                    } else if j == pos {
                        assert(ns[i].0 == self.data@[i]@.0);
                        assert(key_lt(old(self).data@[i]@.0, k));
                    } else if i == pos {
                        assert(ns[j].0 == rs[j - 1].0);
                        assert(rs[j - 1].0 == old(self).data@[j - 1]@.0);
                        assert(rs[pos as int].0 == old(self).data@[pos as int]@.0);
                        assert(key_lt(k, rs[pos as int].0));
                        if j - 1 > pos {
                            lemma_key_transitive(k, rs[pos as int].0, rs[j - 1].0);
                        }
                    } else if i < pos {
                        assert(ns[i].0 == rs[i].0 && ns[j].0 == rs[j - 1].0);
                    } else {
                        assert(ns[i].0 == rs[i - 1].0 && ns[j].0 == rs[j - 1].0);
                    }
                }
                assert forall|j: Seq<Seq<char>>| #[trigger] has_key(ns, j) == target.contains_key(j) by {
                    if has_key(rs, j) {
                        let i = choose|i: int| 0 <= i < rs.len() && rs[i].0 == j;
                        if i < pos {
                            assert(ns[i].0 == j);
                        } else {
                            assert(ns[i + 1].0 == j);
                        }
                    }
                    if j == k {
                        assert(ns[pos as int].0 == j);
                    }
                    if has_key(ns, j) && j != k {
                        let i = choose|i: int| 0 <= i < ns.len() && ns[i].0 == j;
                        if i < pos {
                            assert(rs[i].0 == j);
                        } else {
                            assert(rs[i - 1].0 == j);
                        }
                    }
                }
                assert(self@ =~= target);
            }
        }
    }

    /// The entries held, in strictly increasing key order.
    pub fn entries(&self) -> (r: Vec<Entry>)
        requires
            self.wf(),
        ensures
            sorted_run(rows(r@)),
            aggregate(rows(r@)) == self@,
    {
        let mut out: Vec<Entry> = Vec::new();
        let mut i: usize = 0;
        while i < self.data.len()
            invariant
                i <= self.data@.len(),
                rows(out@) == rows(self.data@).take(i as int),
            decreases self.data@.len() - i,
        {
            let ghost prev = out@;
            let e = self.data[i].duplicate();
            out.push(e);
            proof {
                lemma_rows_push(prev, e);
                assert(rows(out@) =~= rows(self.data@).take(i + 1));
            }
            i += 1;
        }
        proof {
            assert(rows(self.data@).take(i as int) =~= rows(self.data@));
        }
        out
    }
}

/// In a sorted run the keys are exactly as many as the rows.
proof fn lemma_sorted_dom(rs: Seq<(Seq<Seq<char>>, nat)>)
    requires
        sorted_run(rs),
    ensures
        aggregate(rs).dom().finite(),
        aggregate(rs).dom().len() == rs.len(),
    decreases rs.len(),
{
    if rs.len() == 0 {
        assert(aggregate(rs).dom() =~= Set::<Seq<Seq<char>>>::empty());
    } else {
        let p = rs.drop_last();
        assert(sorted_run(p)) by {
            assert forall|i: int, j: int| 0 <= i < j < p.len() implies key_lt(#[trigger] p[i].0, #[trigger] p[j].0) by {
                assert(p[i] == rs[i] && p[j] == rs[j]);
            }
        }
        lemma_sorted_dom(p);
        let last = rs.last();
        assert(!has_key(p, last.0)) by {
            if has_key(p, last.0) {
                let i = choose|i: int| 0 <= i < p.len() && p[i].0 == last.0;
                assert(key_lt(rs[i].0, rs[rs.len() - 1].0));
                lemma_key_irreflexive(last.0);
            }
        }
        assert(aggregate(rs).dom() =~= aggregate(p).dom().insert(last.0)) by {
            assert forall|k: Seq<Seq<char>>| #[trigger] has_key(rs, k) == (has_key(p, k) || k == last.0) by {
                if has_key(rs, k) && k != last.0 {
                    let i = choose|i: int| 0 <= i < rs.len() && rs[i].0 == k;
                    assert(p[i].0 == k);
                }
                if has_key(p, k) {
                    let i = choose|i: int| 0 <= i < p.len() && p[i].0 == k;
                    assert(rs[i].0 == k);
                }
                if k == last.0 {
                    assert(rs[rs.len() - 1].0 == k);
                }
            }
        }
    }
}

} // verus!

verus! {

impl EntryCounter {
    /// The count held for the key of `entry`, zero where it is absent.
    pub fn count_of(&self, entry: &Entry) -> (r: u128)
        requires
            self.wf(),
        ensures
            r == count_in(self@, entry@.0),
    {
        let pos = self.find(entry);
        let ghost rs = rows(self.data@);
        if pos < self.data.len() && self.data[pos].entry_cmp(entry) == EntryOrd::Equal {
            proof {
                assert(rs[pos as int] == self.data@[pos as int]@);
                assert(has_key(rs, entry@.0));
                lemma_sorted_total(rs, pos as int);
            }
            self.data[pos].match_count
        } else {
            proof {
                if pos < self.data@.len() {
                    lemma_key_total(self.data@[pos as int]@.0, entry@.0);
                }
                assert(!has_key(rs, entry@.0)) by {
                    if has_key(rs, entry@.0) {
                        let i = choose|i: int| 0 <= i < rs.len() && rs[i].0 == entry@.0;
                        assert(rs[i].0 == self.data@[i]@.0);
                        lemma_key_irreflexive(entry@.0);
                        if i > pos {
                            assert(rs[pos as int].0 == self.data@[pos as int]@.0);
                        }
                    }
                }
            }
            0
        }
    }
}

} // verus!
