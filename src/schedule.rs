//! Naming of run files and the plan of one pass of the cascading merge over a directory.
use vstd::prelude::*;
use crate::text::{is_digit, lemma_decimal_digits, all_digits, chars_of, decimal, digits_value, parse_count, push_decimal, string_from_chars, unsigned_part};

verus! {

/// The extension of a run file.
pub open spec fn run_suffix() -> Seq<char> {
    seq!['.', 't', 'x', 't', '.', 'g', 'z']
}

/// `n` zero characters.
pub open spec fn zeros(n: nat) -> Seq<char> {
    Seq::new(n, |i: int| '0')
}

/// The decimal digits of `g`, zero-padded on the left to ten characters.
pub open spec fn padded(g: nat) -> Seq<char> {
    let d = decimal(g);
    if d.len() < 10 {
        zeros((10 - d.len()) as nat) + d
    } else {
        d
    }
}

/// The file name of the run of generation `g`.
pub open spec fn run_name(g: nat) -> Seq<char> {
    padded(g) + run_suffix()
}

/// The generation of a run file named `s`: decimal digits followed by the
/// run extension, with a value below `u64::MAX`; `None` for any other name.
pub open spec fn name_generation(s: Seq<char>) -> Option<nat> {
    if s.len() > 7 && s.skip(s.len() - 7) == run_suffix() {
        let stem = s.take(s.len() - 7);
        if all_digits(stem) && digits_value(stem) < u64::MAX {
            Some(digits_value(stem))
        } else {
            None
        }
    } else {
        None
    }
}

/// The file name of the run of generation `g`.
pub fn run_file_name(g: u64) -> (r: String)
    ensures
        r@ == run_name(g as nat),
{
    let mut digits: Vec<char> = Vec::new();
    push_decimal(&mut digits, g as u128);
    let mut out: Vec<char> = Vec::new();
    let mut k: usize = digits.len();
    proof {
        assert(digits@ =~= decimal(g as nat));
    }
    while k < 10
        invariant
            digits@ == decimal(g as nat),
            digits@.len() <= k <= 10 || (k == digits@.len() && k >= 10),
            out@ == zeros((k - digits@.len()) as nat),
        decreases 10 - k,
    {
        out.push('0');
        proof {
            assert(out@ =~= zeros((k + 1 - digits@.len()) as nat));
        }
        k += 1;
    }
    crate::text::push_all(&mut out, &digits);
    let ghost before = out@;
    out.push('.');
    out.push('t');
    out.push('x');
    out.push('t');
    out.push('.');
    out.push('g');
    out.push('z');
    proof {
        if digits@.len() < 10 {
            assert(k == 10);
        } else {
            assert(zeros(0) =~= Seq::<char>::empty());
            assert(before =~= digits@);
        }
        assert(before == padded(g as nat));
        assert(out@ =~= before + run_suffix());
    }
    string_from_chars(&out)
}

/// The generation of the run file `name`, or `None` where `name` does not
/// name a run.
pub fn run_generation(name: &str) -> (r: Option<u64>)
    ensures
        r is Some <==> name_generation(name@) is Some,
        r is Some ==> name_generation(name@) == Some(r->0 as nat),
{
    let s = chars_of(name);
    let n = s.len();
    if n <= 7 {
        return None;
    }
    let ghost suffix = s@.skip(n - 7);
    if !(s[n - 7] == '.' && s[n - 6] == 't' && s[n - 5] == 'x' && s[n - 4] == 't' && s[n - 3] == '.'
        && s[n - 2] == 'g' && s[n - 1] == 'z') {
        proof {
            if suffix == run_suffix() {
                assert(suffix[0] == s@[n - 7]);
                assert(suffix[1] == s@[n - 6]);
                assert(suffix[2] == s@[n - 5]);
                assert(suffix[3] == s@[n - 4]);
                assert(suffix[4] == s@[n - 3]);
                assert(suffix[5] == s@[n - 2]);
                assert(suffix[6] == s@[n - 1]);
            }
        }
        return None;
    }
    proof {
        assert(suffix =~= run_suffix());
    }
    let mut stem: Vec<char> = Vec::new();
    let mut i: usize = 0;
    while i < n - 7
        invariant
            n == s@.len(),
            n > 7,
            i <= n - 7,
            stem@ == s@.take(i as int),
        decreases n - 7 - i,
    {
        stem.push(s[i]);
        proof {
            assert(stem@ =~= s@.take(i + 1));
        }
        i += 1;
    }
    let ghost st = s@.take(n - 7);
    assert(stem@ == st);
    if stem[0] == '+' {
        assert(!crate::text::is_digit(st[0]));
        return None;
    }
    assert(unsigned_part(st) == st);
    match parse_count(&stem) {
        Some(v) => {
            if v < 18446744073709551615u128 {
                Some(v as u64)
            } else {
                None
            }
        },
        None => None,
    }
}

/// One merge of a pass: the runs at positions `left` and `right` of the
/// listing go into a new run of generation `generation`.
#[derive(Debug, PartialEq, Eq, Structural, Clone, Copy)]
pub struct MergeJob {
    pub left: usize,
    pub right: usize,
    pub generation: u64,
}

/// `order` lists every position of `gens` exactly once, newest generation first.
pub open spec fn newest_first(gens: Seq<u64>, order: Seq<usize>) -> bool {
    &&& order.len() == gens.len()
    &&& forall|p: int| 0 <= p < order.len() ==> (#[trigger] order[p]) < gens.len()
    &&& forall|p: int, q: int| 0 <= p < q < order.len() ==> #[trigger] order[p] != #[trigger] order[q]
    &&& forall|p: int, q: int| 0 <= p < q < order.len() ==> gens[#[trigger] order[p] as int] >= gens[#[trigger] order[q] as int]
}

/// The positions of `gens`, newest generation first (among equal
/// generations, in listing order).
pub fn order_newest_first(gens: &Vec<u64>) -> (r: Vec<usize>)
    ensures
        newest_first(gens@, r@),
{
    let mut order: Vec<usize> = Vec::new();
    let mut i: usize = 0;
    while i < gens.len()
        invariant
            i <= gens@.len(),
            order@.len() == i,
            forall|p: int| 0 <= p < order@.len() ==> (#[trigger] order@[p]) < i,
            forall|p: int, q: int| 0 <= p < q < order@.len() ==> #[trigger] order@[p] != #[trigger] order@[q],
            forall|p: int, q: int| 0 <= p < q < order@.len() ==> gens@[#[trigger] order@[p] as int] >= gens@[#[trigger] order@[q] as int],
        decreases gens@.len() - i,
    {
        let g = gens[i];
        let mut pos: usize = 0;
        while pos < order.len() && gens[order[pos]] >= g
            invariant
                pos <= order@.len(),
                order@.len() == i,
                i < gens@.len(),
                g == gens@[i as int],
                forall|p: int| 0 <= p < order@.len() ==> (#[trigger] order@[p]) < i,
                forall|p: int| 0 <= p < pos ==> gens@[#[trigger] order@[p] as int] >= g,
            decreases order@.len() - pos,
        {
            pos += 1;
        }
        let ghost old_order = order@;
        proof {
            assert forall|q: int| pos <= q < old_order.len() implies gens@[#[trigger] old_order[q] as int] < g by {
                if q > pos {
                    assert(gens@[old_order[pos as int] as int] >= gens@[old_order[q] as int]);
                }
            }
        }
        order.insert(pos, i);
        proof {
            let o = order@;
            assert(o =~= old_order.insert(pos as int, i));
            assert forall|p: int| 0 <= p < o.len() implies (#[trigger] o[p]) < i + 1 by {
                if p < pos {
                    assert(o[p] == old_order[p]);
                } else if p > pos {
                    assert(o[p] == old_order[p - 1]);
                }
            }
            assert forall|p: int, q: int| 0 <= p < q < o.len() implies #[trigger] o[p] != #[trigger] o[q] by {
                if p < pos {
                    assert(o[p] == old_order[p]);
                } else if p > pos {
                    assert(o[p] == old_order[p - 1]);
                }
                if q < pos {
                    assert(o[q] == old_order[q]);
                } else if q > pos {
                    assert(o[q] == old_order[q - 1]);
                }
            }
            assert forall|p: int, q: int| 0 <= p < q < o.len() implies gens@[#[trigger] o[p] as int] >= gens@[#[trigger] o[q] as int] by {
                if p < pos {
                    assert(o[p] == old_order[p]);
                } else if p > pos {
                    assert(o[p] == old_order[p - 1]);
                }
                if q < pos {
                    assert(o[q] == old_order[q]);
                } else if q > pos {
                    assert(o[q] == old_order[q - 1]);
                }
            }
        }
        i += 1;
    }
    order
}

/// The merges of one pass over runs of generations `gens`: newest first,
/// runs are taken two by two; each pair goes into a run one generation past
/// the newer of the two, and an odd oldest run is left for the next pass.
pub fn plan_pass(gens: &Vec<u64>) -> (r: Vec<MergeJob>)
    requires
        forall|i: int| 0 <= i < gens@.len() ==> #[trigger] gens@[i] < u64::MAX,
    ensures
        r@.len() == gens@.len() / 2,
        exists|order: Seq<usize>|
            #![trigger newest_first(gens@, order)]
            newest_first(gens@, order) && forall|t: int|
                0 <= t < r@.len() ==> (#[trigger] r@[t]).left == order[2 * t] && r@[t].right
                    == order[2 * t + 1] && r@[t].generation == gens@[order[2 * t] as int] + 1,
{
    let order = order_newest_first(gens);
    let mut jobs: Vec<MergeJob> = Vec::new();
    let mut t: usize = 0;
    while t + 1 < order.len()
        invariant
            newest_first(gens@, order@),
            forall|i: int| 0 <= i < gens@.len() ==> #[trigger] gens@[i] < u64::MAX,
            t % 2 == 0,
            t <= order@.len(),
            jobs@.len() == t / 2,
            forall|s: int|
                0 <= s < jobs@.len() ==> (#[trigger] jobs@[s]).left == order@[2 * s] && jobs@[s].right
                    == order@[2 * s + 1] && jobs@[s].generation == gens@[order@[2 * s] as int] + 1,
        decreases order@.len() - t,
    {
        let left = order[t];
        let right = order[t + 1];
        assert(gens@[left as int] < u64::MAX);
        jobs.push(MergeJob { left, right, generation: gens[left] + 1 });
        t += 2;
    }
    proof {
        assert(newest_first(gens@, order@));
    }
    jobs
}

proof fn lemma_zeros_value(n: nat)
    ensures
        digits_value(zeros(n)) == 0,
        all_digits(zeros(n)),
    decreases n,
{
    if n > 0 {
        assert(zeros(n).drop_last() =~= zeros((n - 1) as nat));
        lemma_zeros_value((n - 1) as nat);
    }
}

proof fn lemma_leading_zeros(n: nat, d: Seq<char>)
    ensures
        digits_value(zeros(n) + d) == digits_value(d),
    decreases d.len(),
{
    if d.len() == 0 {
        assert(zeros(n) + d =~= zeros(n));
        lemma_zeros_value(n);
    } else {
        assert((zeros(n) + d).drop_last() =~= zeros(n) + d.drop_last());
        lemma_leading_zeros(n, d.drop_last());
    }
}

/// The file name of a run gives back its generation.
pub proof fn lemma_run_name_generation(g: nat)
    requires
        g < u64::MAX,
    ensures
        name_generation(run_name(g)) == Some(g),
{
    let d = decimal(g);
    lemma_decimal_digits(g);
    let p = padded(g);
    if d.len() < 10 {
        let z = zeros((10 - d.len()) as nat);
        lemma_zeros_value((10 - d.len()) as nat);
        lemma_leading_zeros((10 - d.len()) as nat, d);
        assert forall|i: int| 0 <= i < p.len() implies is_digit(#[trigger] p[i]) by {
            if i < z.len() {
                assert(p[i] == z[i]);
            } else {
                assert(p[i] == d[i - z.len()]);
            }
        }
    }
    let s = run_name(g);
    assert(s.skip(s.len() - 7) =~= run_suffix());
    assert(s.take(s.len() - 7) =~= p);
}

} // verus!
