//! Character-level helpers shared by the query modules: string building,
//! regex escaping and the lexicographic order on strings.

use vstd::prelude::*;

verus! {

/// Strict lexicographic order on character sequences, comparing characters by
/// code point. This is the order of `String`'s `Ord` impl, since UTF-8
/// preserves the order of code points.
pub open spec fn lex_lt(a: Seq<char>, b: Seq<char>) -> bool
    decreases a.len(),
{
    if a.len() == 0 {
        b.len() > 0
    } else if b.len() == 0 {
        false
    } else if a[0] != b[0] {
        a[0] < b[0]
    } else {
        lex_lt(a.drop_first(), b.drop_first())
    }
}

pub proof fn lemma_lex_lt_irreflexive(a: Seq<char>)
    ensures
        !lex_lt(a, a),
    decreases a.len(),
{
    if a.len() > 0 {
        lemma_lex_lt_irreflexive(a.drop_first());
    }
}

pub proof fn lemma_lex_lt_transitive(a: Seq<char>, b: Seq<char>, c: Seq<char>)
    requires
        lex_lt(a, b),
        lex_lt(b, c),
    ensures
        lex_lt(a, c),
    decreases a.len(),
{
    if a.len() > 0 && b.len() > 0 && c.len() > 0 {
        if a[0] == b[0] && b[0] == c[0] {
            lemma_lex_lt_transitive(a.drop_first(), b.drop_first(), c.drop_first());
        }
    }
}

pub proof fn lemma_lex_lt_total(a: Seq<char>, b: Seq<char>)
    ensures
        a == b || lex_lt(a, b) || lex_lt(b, a),
    decreases a.len(),
{
    if a.len() > 0 && b.len() > 0 {
        if a[0] == b[0] {
            lemma_lex_lt_total(a.drop_first(), b.drop_first());
            if a.drop_first() == b.drop_first() {
                assert(a == seq![a[0]] + a.drop_first());
                assert(b == seq![b[0]] + b.drop_first());
            }
        } else {
        }
    } else if a.len() == 0 && b.len() == 0 {
        assert(a == b);
    }
}

pub proof fn lemma_lex_lt_asymmetric(a: Seq<char>, b: Seq<char>)
    requires
        lex_lt(a, b),
    ensures
        !lex_lt(b, a),
{
    if lex_lt(b, a) {
        lemma_lex_lt_transitive(a, b, a);
        lemma_lex_lt_irreflexive(a);
    }
}

/// A sequence of character sequences in strictly increasing lexicographic
/// order: sorted, and without duplicates.
pub open spec fn strictly_sorted(fs: Seq<Seq<char>>) -> bool {
    forall|i: int, j: int| 0 <= i < j < fs.len() ==> lex_lt(fs[i], fs[j])
}

/// Two strictly sorted sequences holding the same elements are equal.
pub proof fn lemma_strictly_sorted_unique(a: Seq<Seq<char>>, b: Seq<Seq<char>>)
    requires
        strictly_sorted(a),
        strictly_sorted(b),
        a.to_set() == b.to_set(),
    ensures
        a == b,
    decreases a.len(),
{
    if a.len() == 0 {
        if b.len() > 0 {
            assert(b.to_set().contains(b[0]));
        }
    } else if b.len() == 0 {
        assert(a.to_set().contains(a[0]));
    } else {
        // Both minima coincide.
        assert(a.to_set().contains(a[0]));
        assert(b.to_set().contains(b[0]));
        let ia = choose|i: int| 0 <= i < a.len() && a[i] == b[0];
        let ib = choose|i: int| 0 <= i < b.len() && b[i] == a[0];
        if a[0] != b[0] {
            assert(ia != 0);
            assert(ib != 0);
            assert(lex_lt(a[0], a[ia]));
            assert(lex_lt(b[0], b[ib]));
            lemma_lex_lt_asymmetric(a[0], b[0]);
        }
        let ta = a.drop_first();
        let tb = b.drop_first();
        assert forall|x: Seq<char>| ta.to_set().contains(x) implies tb.to_set().contains(x) by {
            let i = choose|i: int| 0 <= i < ta.len() && ta[i] == x;
            assert(a[i + 1] == x);
            assert(b.to_set().contains(x));
            let j = choose|j: int| 0 <= j < b.len() && b[j] == x;
            if j == 0 {
                assert(lex_lt(a[0], a[i + 1]));
                lemma_lex_lt_irreflexive(x);
            }
            assert(tb[j - 1] == x);
        }
        assert forall|x: Seq<char>| tb.to_set().contains(x) implies ta.to_set().contains(x) by {
            let i = choose|i: int| 0 <= i < tb.len() && tb[i] == x;
            assert(b[i + 1] == x);
            assert(a.to_set().contains(x));
            let j = choose|j: int| 0 <= j < a.len() && a[j] == x;
            if j == 0 {
                assert(lex_lt(b[0], b[i + 1]));
                lemma_lex_lt_irreflexive(x);
            }
            assert(ta[j - 1] == x);
        }
        assert(ta.to_set() =~= tb.to_set());
        lemma_strictly_sorted_unique(ta, tb);
        assert(a == seq![a[0]] + ta);
        assert(b == seq![b[0]] + tb);
    }
}

/// The characters of `s`, in order.
pub fn chars_of(s: &str) -> (r: Vec<char>)
    ensures
        r@ == s@,
{
    let mut r: Vec<char> = Vec::new();
    for c in it: s.chars()
        invariant
            r@ == it.seq().take(it.index() as int),
    {
        r.push(c);
    }
    r
}

/// Compares two character sequences in the order of `lex_lt`.
pub fn lex_less(a: &Vec<char>, b: &Vec<char>) -> (r: bool)
    ensures
        r == lex_lt(a@, b@),
{
    let mut i: usize = 0;
    assert(a@.skip(0) == a@);
    assert(b@.skip(0) == b@);
    while i < a.len() && i < b.len()
        invariant
            0 <= i <= a.len(),
            i <= b.len(),
            lex_lt(a@, b@) == lex_lt(a@.skip(i as int), b@.skip(i as int)),
        decreases a.len() - i,
    {
        if a[i] != b[i] {
            assert(a@.skip(i as int)[0] == a@[i as int]);
            assert(b@.skip(i as int)[0] == b@[i as int]);
            return a[i] < b[i];
        }
        assert(a@.skip(i as int).drop_first() == a@.skip(i + 1));
        assert(b@.skip(i as int).drop_first() == b@.skip(i + 1));
        i = i + 1;
    }
    i < b.len()
}

/// Appends one character to a string (`String::push`).
#[verifier::external_body]
pub(crate) fn push_char(s: &mut String, c: char)
    ensures
        final(s)@ == old(s)@.push(c),
{
    s.push(c);
}

/// The meta characters of the regex syntax: exactly those that
/// `regex_syntax::is_meta_character` reports.
pub open spec fn is_meta_character(c: char) -> bool {
    c == '\\' || c == '.' || c == '+' || c == '*' || c == '?' || c == '(' || c == ')' || c == '|'
        || c == '[' || c == ']' || c == '{' || c == '}' || c == '^' || c == '$' || c == '#'
        || c == '&' || c == '-' || c == '~'
}

/// `s` with a backslash put before each meta character.
pub open spec fn escaped(s: Seq<char>) -> Seq<char>
    decreases s.len(),
{
    if s.len() == 0 {
        Seq::empty()
    } else {
        let c = s.last();
        escaped(s.drop_last()) + if is_meta_character(c) {
            seq!['\\', c]
        } else {
            seq![c]
        }
    }
}

/// Trusted: `regex::escape` returns its argument with every meta character
/// (`regex_syntax::is_meta_character`) preceded by a backslash, every other
/// character copied as it is, in order.
#[verifier::external_body]
pub(crate) fn escape(text: &str) -> (r: String)
    ensures
        r@ == escaped(text@),
{
    regex::escape(text)
}

} // verus!
