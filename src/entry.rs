//! One n-gram with its occurrence count, and the two line formats it is read from.
use vstd::prelude::*;
use crate::order::{cmp_tokens, key_ord, key_order, lemma_key_order, lemma_lex_skip, lemma_token_order, strict_total, token_order, EntryOrd};
use crate::text::{lemma_split_pieces_free, free_of, is_digit, lemma_decimal_digits, lemma_join_free, lemma_join_split, lemma_split_concat, lemma_split_free, unsigned_part, chars_of, count_value, decimal, join, parse_count, push_all, push_decimal, split_chars, split_on, string_from_chars, views, lemma_split_nonempty};

verus! {

/// A key (sequence of tokens) and its count, as mathematical values.
pub type Row = (Seq<Seq<char>>, nat);

/// An n-gram and the number of times it occurred.
#[derive(Debug, Clone, PartialEq)]
pub struct Entry {
    pub ngram: Vec<String>,
    pub match_count: u128,
}

/// The character views of a sequence of strings.
pub open spec fn string_views(ngram: Seq<String>) -> Seq<Seq<char>> {
    Seq::new(ngram.len(), |i: int| ngram[i]@)
}

impl View for Entry {
    type V = Row;

    open spec fn view(&self) -> Row {
        (string_views(self.ngram@), self.match_count as nat)
    }
}

/// The view of an optional entry.
pub open spec fn opt_row(e: Option<Entry>) -> Option<Row> {
    match e {
        Some(x) => Some(x@),
        None => None,
    }
}

/// A raw corpus token without its tag suffix (what precedes the first `_`),
/// or `None` for a token that begins with `_`.
pub open spec fn raw_token(t: Seq<char>) -> Option<Seq<char>> {
    if t.len() > 0 && t[0] == '_' {
        None
    } else {
        Some(split_on(t, '_')[0])
    }
}

pub open spec fn raw_tokens_ok(ts: Seq<Seq<char>>) -> bool {
    forall|i: int| 0 <= i < ts.len() ==> (#[trigger] raw_token(ts[i])) is Some
}

pub open spec fn raw_key(ts: Seq<Seq<char>>) -> Seq<Seq<char>> {
    Seq::new(ts.len(), |i: int| raw_token(ts[i])->0)
}

/// The entry that a raw corpus line `phrase \t year \t match-count \t volume-count`
/// stands for, or `None` where the line is to be skipped.
pub open spec fn raw_line_row(line: Seq<char>) -> Option<Row> {
    let fields = split_on(line, '\t');
    if fields.len() != 4 {
        None
    } else {
        let words = split_on(fields[0], ' ');
        if !raw_tokens_ok(words) {
            None
        } else {
            match count_value(fields[2]) {
                Some(c) => Some((raw_key(words), c)),
                None => None,
            }
        }
    }
}

/// The entry that a line `key \t count` of a run stands for, or `None` where
/// the line is malformed.
pub open spec fn parsed_line_row(line: Seq<char>) -> Option<Row> {
    let fields = split_on(line, '\t');
    if fields.len() != 2 {
        None
    } else {
        match count_value(fields[1]) {
            Some(c) => Some((split_on(fields[0], ' '), c)),
            None => None,
        }
    }
}

/// The line of a run that holds `r`: its tokens joined by spaces, a tab, its count.
pub open spec fn render_row(r: Row) -> Seq<char> {
    join(r.0, ' ').push('\t') + decimal(r.1)
}

pub proof fn lemma_string_views_push(s: Seq<String>, x: String)
    ensures
        string_views(s.push(x)) == string_views(s).push(x@),
{
    assert(forall|k: int| 0 <= k < s.len() ==> string_views(s.push(x))[k] == string_views(s)[k]);
    assert(string_views(s.push(x)) =~= string_views(s).push(x@));
}

/// The entry that merging `a` with an entry `b` of the same key gives.
pub open spec fn merge_rows(a: Row, b: Row) -> Row {
    (a.0, a.1 + b.1)
}

/// Merging two entries of one key gives the same entry in either order.
pub proof fn lemma_merge_commutative(a: Row, b: Row)
    requires
        a.0 == b.0,
    ensures
        merge_rows(a, b) == merge_rows(b, a),
{
}

/// Merging three entries of one key gives the same entry however they are grouped.
pub proof fn lemma_merge_associative(a: Row, b: Row, c: Row)
    requires
        a.0 == b.0,
        b.0 == c.0,
    ensures
        merge_rows(merge_rows(a, b), c) == merge_rows(a, merge_rows(b, c)),
{
}

/// A rendered entry reads back as the same entry, so that every run can be
/// parsed again: its key must have a token, and no token a space or a tab.
pub proof fn lemma_render_parse(e: Row)
    requires
        e.0.len() >= 1,
        forall|i: int| 0 <= i < e.0.len() ==> free_of(#[trigger] e.0[i], ' ') && free_of(e.0[i], '\t'),
        e.1 <= u128::MAX,
    ensures
        parsed_line_row(render_row(e)) == Some(e),
{
    let j = join(e.0, ' ');
    let d = decimal(e.1);
    lemma_join_free(e.0, ' ', '\t');
    lemma_decimal_digits(e.1);
    assert(free_of(d, '\t')) by {
        assert forall|i: int| 0 <= i < d.len() implies d[i] != '\t' by {
            assert(is_digit(d[i]));
        }
    }
    lemma_split_concat(j, d, '\t');
    lemma_split_free(j, '\t');
    lemma_split_free(d, '\t');
    let fields = split_on(render_row(e), '\t');
    assert(fields =~= seq![j, d]);
    assert(unsigned_part(d) == d);
    assert(count_value(d) == Some(e.1));
    lemma_join_split(e.0, ' ');
}

/// An entry read from a raw corpus line renders to a run line that reads
/// back as the same entry.
pub proof fn lemma_raw_entry_round_trip(line: Seq<char>)
    requires
        raw_line_row(line) is Some,
    ensures
        parsed_line_row(render_row(raw_line_row(line)->0)) == raw_line_row(line),
{
    let e = raw_line_row(line)->0;
    let fields = split_on(line, '\t');
    let words = split_on(fields[0], ' ');
    lemma_split_pieces_free(line, '\t', ' ');
    lemma_split_pieces_free(fields[0], ' ', '\t');
    lemma_split_nonempty(fields[0], ' ');
    assert forall|i: int| 0 <= i < e.0.len() implies free_of(#[trigger] e.0[i], ' ') && free_of(e.0[i], '\t') by {
        let w = words[i];
        assert(free_of(w, ' ') && free_of(w, '\t'));
        assert(raw_token(w) is Some);
        lemma_split_pieces_free(w, '_', ' ');
        lemma_split_pieces_free(w, '_', '\t');
        lemma_split_nonempty(w, '_');
        assert(e.0[i] == split_on(w, '_')[0]);
    }
    lemma_render_parse(e);
}

fn clone_ngram(v: &Vec<String>) -> (r: Vec<String>)
    ensures
        string_views(r@) == string_views(v@),
{
    let mut out: Vec<String> = Vec::new();
    let mut i: usize = 0;
    while i < v.len()
        invariant
            i <= v@.len(),
            string_views(out@) == string_views(v@).take(i as int),
        decreases v@.len() - i,
    {
        let ghost prev = out@;
        out.push(v[i].clone());
        proof {
            lemma_string_views_push(prev, v@[i as int]);
            assert(string_views(out@) =~= string_views(v@).take(i + 1));
        }
        i += 1;
    }
    proof {
        assert(string_views(v@).take(i as int) =~= string_views(v@));
    }
    out
}

impl Entry {
    /// A copy of this entry.
    pub fn duplicate(&self) -> (r: Entry)
        ensures
            r@ == self@,
    {
        Entry { ngram: clone_ngram(&self.ngram), match_count: self.match_count }
    }

    /// Parses a raw corpus line; a line with another number of fields, a token
    /// that begins with `_` or a malformed match count gives `None`.
    pub fn from_raw_line(line: &str) -> (r: Option<Entry>)
        ensures
            opt_row(r) == raw_line_row(line@),
    {
        let chars = chars_of(line);
        let fields = split_chars(&chars, '\t');
        if fields.len() != 4 {
            return None;
        }
        proof {
            assert(views(fields@)[0] == fields@[0]@);
            assert(views(fields@)[2] == fields@[2]@);
        }
        let words = split_chars(&fields[0], ' ');
        let ngram = match Entry::split_ngram_to_words(&words) {
            Some(n) => n,
            None => {
                return None;
            },
        };
        let match_count = match parse_count(&fields[2]) {
            Some(c) => c,
            None => {
                return None;
            },
        };
        Some(Entry { ngram, match_count })
    }

    /// Strips the tag suffixes of the words of a phrase; `None` if one of
    /// them is a pure tag.
    fn split_ngram_to_words(words: &Vec<Vec<char>>) -> (r: Option<Vec<String>>)
        ensures
            r is Some <==> raw_tokens_ok(views(words@)),
            r is Some ==> string_views(r->0@) == raw_key(views(words@)),
    {
        let mut out: Vec<String> = Vec::new();
        let mut i: usize = 0;
        while i < words.len()
            invariant
                i <= words@.len(),
                forall|k: int| 0 <= k < i ==> (#[trigger] raw_token(views(words@)[k])) is Some,
                string_views(out@) == raw_key(views(words@)).take(i as int),
            decreases words@.len() - i,
        {
            assert(views(words@)[i as int] == words@[i as int]@);
            let ghost prev = out@;
            match Entry::valid_ngram_elem(&words[i]) {
                Some(w) => {
                    out.push(w);
                    proof {
                        lemma_string_views_push(prev, w);
                    }
                },
                None => {
                    return None;
                },
            }
            proof {
                assert(string_views(out@) =~= raw_key(views(words@)).take(i + 1));
            }
            i += 1;
        }
        proof {
            assert(raw_key(views(words@)).take(i as int) =~= raw_key(views(words@)));
        }
        Some(out)
    }

    /// A word without its tag suffix, or `None` for a pure tag.
    fn valid_ngram_elem(word: &Vec<char>) -> (r: Option<String>)
        ensures
            r is Some <==> raw_token(word@) is Some,
            r is Some ==> raw_token(word@) == Some(r->0@),
    {
        if word.len() > 0 && word[0] == '_' {
            None
        } else {
            let parts = split_chars(word, '_');
            proof {
                lemma_split_nonempty(word@, '_');
                assert(views(parts@)[0] == parts@[0]@);
            }
            Some(string_from_chars(&parts[0]))
        }
    }

    /// Parses a line of a run, `key \t count`; `None` where it is malformed.
    pub fn try_from_parsed_line(line: &str) -> (r: Option<Entry>)
        ensures
            opt_row(r) == parsed_line_row(line@),
    {
        let chars = chars_of(line);
        let fields = split_chars(&chars, '\t');
        if fields.len() != 2 {
            return None;
        }
        proof {
            assert(views(fields@)[0] == fields@[0]@);
            assert(views(fields@)[1] == fields@[1]@);
        }
        let match_count = match parse_count(&fields[1]) {
            Some(c) => c,
            None => {
                return None;
            },
        };
        let words = split_chars(&fields[0], ' ');
        let mut ngram: Vec<String> = Vec::new();
        let mut i: usize = 0;
        while i < words.len()
            invariant
                i <= words@.len(),
                string_views(ngram@) == views(words@).take(i as int),
            decreases words@.len() - i,
        {
            let ghost prev = ngram@;
            let w = string_from_chars(&words[i]);
            ngram.push(w);
            proof {
                lemma_string_views_push(prev, w);
                assert(views(words@)[i as int] == words@[i as int]@);
                assert(string_views(ngram@) =~= views(words@).take(i + 1));
            }
            i += 1;
        }
        proof {
            assert(views(words@).take(i as int) =~= views(words@));
        }
        Some(Entry { ngram, match_count })
    }

    /// Parses a line of a run, which must be well formed.
    pub fn from_parsed_line(line: &str) -> (r: Entry)
        requires
            parsed_line_row(line@) is Some,
        ensures
            parsed_line_row(line@) == Some(r@),
    {
        match Entry::try_from_parsed_line(line) {
            Some(e) => e,
            None => {
                proof {
                    assert(false);
                }
                Entry { ngram: Vec::new(), match_count: 0 }
            },
        }
    }

    /// Compares the keys of two entries.
    pub fn entry_cmp(&self, other: &Entry) -> (r: EntryOrd)
        ensures
            r == key_ord(self@.0, other@.0),
    {
        let ghost a = self@.0;
        let ghost b = other@.0;
        let ghost lt = token_order();
        proof {
            lemma_token_order();
            lemma_key_order();
        }
        let mut i: usize = 0;
        while i < self.ngram.len() && i < other.ngram.len()
            invariant
                a == self@.0,
                b == other@.0,
                i <= a.len(),
                i <= b.len(),
                a.take(i as int) == b.take(i as int),
                strict_total(lt),
                strict_total(key_order()),
                lt == token_order(),
            decreases a.len() - i,
        {
            let x = chars_of(self.ngram[i].as_str());
            let y = chars_of(other.ngram[i].as_str());
            let c = cmp_tokens(&x, &y);
            assert(a[i as int] == x@);
            assert(b[i as int] == y@);
            if c != EntryOrd::Equal {
                proof {
                    lemma_lex_skip(a, b, i as int, lt);
                    lemma_lex_skip(b, a, i as int, lt);
                    assert(a != b);
                }
                return c;
            }
            proof {
                assert(a.take(i + 1) =~= a.take(i as int).push(a[i as int]));
                assert(b.take(i + 1) =~= b.take(i as int).push(b[i as int]));
            }
            i += 1;
        }
        proof {
            lemma_lex_skip(a, b, i as int, lt);
            lemma_lex_skip(b, a, i as int, lt);
        }
        if self.ngram.len() == other.ngram.len() {
            assert(a =~= a.take(i as int));
            assert(b =~= b.take(i as int));
            EntryOrd::Equal
        } else if i == self.ngram.len() {
            EntryOrd::Less
        } else {
            EntryOrd::Grater
        }
    }

    /// Combines two entries of the same key into one that holds both counts.
    pub fn merge(&self, other: &Entry) -> (r: Entry)
        requires
            self@.0 == other@.0,
            self.match_count + other.match_count <= u128::MAX,
        ensures
            r@ == merge_rows(self@, other@),
    {
        Entry { ngram: clone_ngram(&self.ngram), match_count: self.match_count + other.match_count }
    }

    /// The line of a run that holds this entry.
    pub fn render(&self) -> (r: String)
        ensures
            r@ == render_row(self@),
    {
        let ghost key = self@.0;
        let mut out: Vec<char> = Vec::new();
        let mut i: usize = 0;
        while i < self.ngram.len()
            invariant
                key == self@.0,
                i <= key.len(),
                out@ == join(key.take(i as int), ' '),
            decreases key.len() - i,
        {
            if i > 0 {
                out.push(' ');
            }
            let w = chars_of(self.ngram[i].as_str());
            push_all(&mut out, &w);
            proof {
                assert(key.take(i + 1).drop_last() =~= key.take(i as int));
                assert(key[i as int] == w@);
                if i == 0 {
                    assert(out@ =~= join(key.take(i + 1), ' '));
                } else {
                    assert(out@ =~= join(key.take(i + 1), ' '));
                }
            }
            i += 1;
        }
        assert(key.take(i as int) =~= key);
        out.push('\t');
        push_decimal(&mut out, self.match_count);
        string_from_chars(&out)
    }
}

} // verus!
