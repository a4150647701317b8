//! Lexicographic order on tokens and on n-gram keys.
use vstd::prelude::*;

verus! {

/// Outcome of comparing two values under the n-gram order.
#[derive(Debug, PartialEq, Eq, Structural, Clone, Copy)]
pub enum EntryOrd {
    Less,
    Equal,
    Grater,
}

/// Sequence order: the first differing position decides, and a proper
/// prefix comes first.
pub open spec fn lex_lt<T>(a: Seq<T>, b: Seq<T>, lt: spec_fn(T, T) -> bool) -> bool
    decreases a.len(),
{
    if a.len() == 0 {
        b.len() > 0
    } else if b.len() == 0 {
        false
    } else if lt(a[0], b[0]) {
        true
    } else if a[0] == b[0] {
        lex_lt(a.drop_first(), b.drop_first(), lt)
    } else {
        false
    }
}

/// `lt` is irreflexive, transitive and relates any two distinct values one way.
pub open spec fn strict_total<T>(lt: spec_fn(T, T) -> bool) -> bool {
    &&& forall|x: T| !#[trigger] lt(x, x)
    &&& forall|x: T, y: T, z: T| #[trigger] lt(x, y) && #[trigger] lt(y, z) ==> lt(x, z)
    &&& forall|x: T, y: T| x != y ==> #[trigger] lt(x, y) || #[trigger] lt(y, x)
}

proof fn lemma_lex_irreflexive<T>(a: Seq<T>, lt: spec_fn(T, T) -> bool)
    requires
        strict_total(lt),
    ensures
        !lex_lt(a, a, lt),
    decreases a.len(),
{
    if a.len() > 0 {
        lemma_lex_irreflexive(a.drop_first(), lt);
    }
}

proof fn lemma_lex_transitive<T>(a: Seq<T>, b: Seq<T>, c: Seq<T>, lt: spec_fn(T, T) -> bool)
    requires
        strict_total(lt),
        lex_lt(a, b, lt),
        lex_lt(b, c, lt),
    ensures
        lex_lt(a, c, lt),
    decreases a.len(),
{
    if a.len() > 0 && b.len() > 0 && c.len() > 0 {
        if a[0] == b[0] && b[0] == c[0] {
            lemma_lex_transitive(a.drop_first(), b.drop_first(), c.drop_first(), lt);
        }
    }
}

proof fn lemma_lex_total<T>(a: Seq<T>, b: Seq<T>, lt: spec_fn(T, T) -> bool)
    requires
        strict_total(lt),
        a != b,
    ensures
        lex_lt(a, b, lt) || lex_lt(b, a, lt),
    decreases a.len(),
{
    if a.len() > 0 && b.len() > 0 && a[0] == b[0] {
        if a.drop_first() == b.drop_first() {
            assert(a =~= seq![a[0]] + a.drop_first());
            assert(b =~= seq![b[0]] + b.drop_first());
        }
        lemma_lex_total(a.drop_first(), b.drop_first(), lt);
    } else if a.len() == 0 && b.len() == 0 {
        assert(a =~= b);
    }
}

/// The lexicographic extension of a strict total order is a strict total order.
pub proof fn lemma_lex_strict_total<T>(lt: spec_fn(T, T) -> bool)
    requires
        strict_total(lt),
    ensures
        strict_total(|a: Seq<T>, b: Seq<T>| lex_lt(a, b, lt)),
{
    let l = |a: Seq<T>, b: Seq<T>| lex_lt(a, b, lt);
    assert forall|x: Seq<T>| !#[trigger] l(x, x) by {
        lemma_lex_irreflexive(x, lt);
    }
    assert forall|x: Seq<T>, y: Seq<T>, z: Seq<T>| #[trigger] l(x, y) && #[trigger] l(y, z) implies l(
        x,
        z,
    ) by {
        lemma_lex_transitive(x, y, z, lt);
    }
    assert forall|x: Seq<T>, y: Seq<T>| x != y implies #[trigger] l(x, y) || #[trigger] l(y, x) by {
        lemma_lex_total(x, y, lt);
    }
}

/// Equal prefixes can be dropped without changing the comparison.
pub proof fn lemma_lex_skip<T>(a: Seq<T>, b: Seq<T>, i: int, lt: spec_fn(T, T) -> bool)
    requires
        0 <= i <= a.len(),
        i <= b.len(),
        a.take(i) == b.take(i),
        strict_total(lt),
    ensures
        lex_lt(a, b, lt) == lex_lt(a.skip(i), b.skip(i), lt),
    decreases i,
{
    if i > 0 {
        assert(a[0] == a.take(i)[0]);
        assert(b[0] == b.take(i)[0]);
        assert(a.drop_first().take(i - 1) =~= a.take(i).drop_first());
        assert(b.drop_first().take(i - 1) =~= b.take(i).drop_first());
        lemma_lex_skip(a.drop_first(), b.drop_first(), i - 1, lt);
        assert(a.drop_first().skip(i - 1) =~= a.skip(i));
        assert(b.drop_first().skip(i - 1) =~= b.skip(i));
    } else {
        assert(a.skip(0) =~= a);
        assert(b.skip(0) =~= b);
    }
}

/// Characters compare by their code points.
pub open spec fn char_lt(x: char, y: char) -> bool {
    (x as int) < (y as int)
}

pub open spec fn char_order() -> spec_fn(char, char) -> bool {
    |x: char, y: char| char_lt(x, y)
}

/// Order on tokens: lexicographic over characters.
pub open spec fn token_lt(a: Seq<char>, b: Seq<char>) -> bool {
    lex_lt(a, b, char_order())
}

pub open spec fn token_order() -> spec_fn(Seq<char>, Seq<char>) -> bool {
    |x: Seq<char>, y: Seq<char>| token_lt(x, y)
}

/// Order on n-gram keys: lexicographic over tokens.
pub open spec fn key_lt(a: Seq<Seq<char>>, b: Seq<Seq<char>>) -> bool {
    lex_lt(a, b, token_order())
}

pub open spec fn key_order() -> spec_fn(Seq<Seq<char>>, Seq<Seq<char>>) -> bool {
    |x: Seq<Seq<char>>, y: Seq<Seq<char>>| key_lt(x, y)
}

/// Character order is a strict total order.
pub proof fn lemma_char_order()
    ensures
        strict_total(char_order()),
{
    let l = char_order();
    assert forall|x: char, y: char| x != y implies #[trigger] l(x, y) || #[trigger] l(y, x) by {
        if (x as int) == (y as int) {
            assert(x == y);
        }
    }
}

/// Token order is a strict total order.
pub proof fn lemma_token_order()
    ensures
        strict_total(token_order()),
{
    lemma_char_order();
    lemma_lex_strict_total(char_order());
    assert(token_order() =~= (|x: Seq<char>, y: Seq<char>| lex_lt(x, y, char_order())));
}

/// Key order is a strict total order.
pub proof fn lemma_key_order()
    ensures
        strict_total(key_order()),
{
    lemma_token_order();
    lemma_lex_strict_total(token_order());
    assert(key_order() =~= (|x: Seq<Seq<char>>, y: Seq<Seq<char>>| lex_lt(x, y, token_order())));
}

/// The comparison outcome that `key_lt` dictates.
pub open spec fn key_ord(a: Seq<Seq<char>>, b: Seq<Seq<char>>) -> EntryOrd {
    if key_lt(a, b) {
        EntryOrd::Less
    } else if a == b {
        EntryOrd::Equal
    } else {
        EntryOrd::Grater
    }
}

/// Compares two tokens given as characters.
pub fn cmp_tokens(a: &Vec<char>, b: &Vec<char>) -> (r: EntryOrd)
    ensures
        (r == EntryOrd::Less) == token_lt(a@, b@),
        (r == EntryOrd::Equal) == (a@ == b@),
        (r == EntryOrd::Grater) == token_lt(b@, a@),
{
    let ghost lt = char_order();
    proof {
        lemma_char_order();
        lemma_token_order();
    }
    let mut i: usize = 0;
    while i < a.len() && i < b.len()
        invariant
            i <= a@.len(),
            i <= b@.len(),
            a@.take(i as int) == b@.take(i as int),
            strict_total(lt),
            lt == char_order(),
        decreases a@.len() - i,
    {
        if a[i] != b[i] {
            proof {
                lemma_lex_skip(a@, b@, i as int, lt);
                lemma_lex_skip(b@, a@, i as int, lt);
            }
            if a[i] < b[i] {
                return EntryOrd::Less;
            } else {
                return EntryOrd::Grater;
            }
        }
        proof {
            assert(a@.take(i + 1) =~= a@.take(i as int).push(a@[i as int]));
            assert(b@.take(i + 1) =~= b@.take(i as int).push(b@[i as int]));
        }
        i += 1;
    }
    proof {
        lemma_lex_skip(a@, b@, i as int, lt);
        lemma_lex_skip(b@, a@, i as int, lt);
    }
    if a.len() == b.len() {
        assert(a@ =~= a@.take(i as int));
        assert(b@ =~= b@.take(i as int));
        EntryOrd::Equal
    } else if i == a.len() {
        EntryOrd::Less
    } else {
        EntryOrd::Grater
    }
}

} // verus!

verus! {

pub proof fn lemma_key_irreflexive(a: Seq<Seq<char>>)
    ensures
        !key_lt(a, a),
{
    lemma_key_order();
    assert(!key_order()(a, a));
}

pub proof fn lemma_key_transitive(a: Seq<Seq<char>>, b: Seq<Seq<char>>, c: Seq<Seq<char>>)
    requires
        key_lt(a, b),
        key_lt(b, c),
    ensures
        key_lt(a, c),
{
    lemma_key_order();
    assert(key_order()(a, b) && key_order()(b, c));
}

pub proof fn lemma_key_total(a: Seq<Seq<char>>, b: Seq<Seq<char>>)
    ensures
        a == b || key_lt(a, b) || key_lt(b, a),
{
    lemma_key_order();
    if a != b {
        assert(key_order()(a, b) || key_order()(b, a));
    }
}

/// The comparison of keys is a strict total order: it answers `Equal`
/// exactly on equal keys, swapping the operands swaps `Less` and `Grater`,
/// and `Less` is transitive.
pub proof fn lemma_key_ord_laws(a: Seq<Seq<char>>, b: Seq<Seq<char>>, c: Seq<Seq<char>>)
    ensures
        (key_ord(a, b) == EntryOrd::Equal) == (a == b),
        (key_ord(a, b) == EntryOrd::Less) == (key_ord(b, a) == EntryOrd::Grater),
        key_ord(a, b) == EntryOrd::Less && key_ord(b, c) == EntryOrd::Less ==> key_ord(a, c)
            == EntryOrd::Less,
{
    lemma_key_irreflexive(a);
    lemma_key_total(a, b);
    if key_lt(a, b) && key_lt(b, a) {
        lemma_key_transitive(a, b, a);
    }
    if key_lt(a, b) && key_lt(b, c) {
        lemma_key_transitive(a, b, c);
    }
}

} // verus!
