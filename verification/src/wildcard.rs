//! Translation of wildcard patterns (`*`, `?`, `\` escapes) into regexes,
//! and the literal-run bookkeeping used to normalize the literals of a regex.

use regex_syntax::ast::Ast;
use vstd::prelude::*;

use crate::text::{chars_of, escape, escaped, push_char};

verus! {

/// The explicit case flag that starts every translated wildcard.
pub open spec fn case_flag(case_insensitive: bool) -> Seq<char> {
    if case_insensitive {
        seq!['(', '?', 'i', ')']
    } else {
        seq!['(', '?', '-', 'i', ')']
    }
}

/// A literal kept as one non-capturing group: `(?:` escaped text `)`.
pub open spec fn literal_group(text: Seq<char>) -> Seq<char> {
    seq!['(', '?', ':'] + escaped(text) + seq![')']
}

/// The group for the pending literal, or nothing when it is empty.
pub open spec fn flush_literal(pending: Seq<char>) -> Seq<char> {
    if pending.len() == 0 {
        Seq::empty()
    } else {
        literal_group(pending)
    }
}

/// Translation of the rest `w` of a wildcard, where `pending` holds the
/// literal characters read since the last operator. `*` becomes `.*`, `?`
/// becomes `.`, `\c` becomes a literal group of its own for `c`, a trailing
/// `\` is dropped, and each maximal run of other characters becomes one
/// literal group.
pub open spec fn translate_wildcard(w: Seq<char>, pending: Seq<char>) -> Seq<char>
    decreases w.len(),
{
    if w.len() == 0 {
        flush_literal(pending)
    } else if w[0] == '*' {
        flush_literal(pending) + seq!['.', '*'] + translate_wildcard(w.drop_first(), Seq::empty())
    } else if w[0] == '?' {
        flush_literal(pending) + seq!['.'] + translate_wildcard(w.drop_first(), Seq::empty())
    } else if w[0] == '\\' {
        if w.len() == 1 {
            flush_literal(pending)
        } else {
            flush_literal(pending) + literal_group(seq![w[1]]) + translate_wildcard(
                w.skip(2),
                Seq::empty(),
            )
        }
    } else {
        translate_wildcard(w.drop_first(), pending.push(w[0]))
    }
}

/// The regex that a wildcard pattern stands for.
pub open spec fn wildcard_regex(wildcard: Seq<char>, case_insensitive: bool) -> Seq<char> {
    case_flag(case_insensitive) + translate_wildcard(wildcard, Seq::empty())
}

fn append_literal(regex: &mut String, text: &str)
    ensures
        final(regex)@ == old(regex)@ + literal_group(text@),
{
    push_char(regex, '(');
    push_char(regex, '?');
    push_char(regex, ':');
    let escaped_text = escape(text);
    regex.append(escaped_text.as_str());
    push_char(regex, ')');
}

fn flush_pending(regex: &mut String, pending: &mut String)
    ensures
        final(regex)@ == old(regex)@ + flush_literal(old(pending)@),
        final(pending)@ == Seq::<char>::empty(),
{
    if pending.as_str().unicode_len() > 0 {
        append_literal(regex, pending.as_str());
        *pending = String::new();
    }
}

/// Translates a wildcard pattern into a regex that starts with an explicit
/// case flag, so that no automatic case folding is added later.
pub fn wildcard_to_regex(wildcard: &str, case_insensitive: bool) -> (regex: String)
    ensures
        regex@ == wildcard_regex(wildcard@, case_insensitive),
{
    let w = chars_of(wildcard);
    let mut regex = String::new();
    push_char(&mut regex, '(');
    push_char(&mut regex, '?');
    if !case_insensitive {
        push_char(&mut regex, '-');
    }
    push_char(&mut regex, 'i');
    push_char(&mut regex, ')');
    assert(regex@ == case_flag(case_insensitive));
    let mut pending = String::new();
    let mut i: usize = 0;
    assert(w@.skip(0) == w@);
    while i < w.len()
        invariant
            0 <= i <= w.len(),
            w@ == wildcard@,
            regex@ + translate_wildcard(w@.skip(i as int), pending@) == wildcard_regex(
                wildcard@,
                case_insensitive,
            ),
        decreases w.len() - i,
    {
        let c = w[i];
        let ghost rest = w@.skip(i as int);
        assert(rest[0] == c);
        if c == '*' {
            flush_pending(&mut regex, &mut pending);
            push_char(&mut regex, '.');
            push_char(&mut regex, '*');
            assert(rest.drop_first() == w@.skip(i + 1));
            i = i + 1;
        } else if c == '?' {
            flush_pending(&mut regex, &mut pending);
            push_char(&mut regex, '.');
            assert(rest.drop_first() == w@.skip(i + 1));
            i = i + 1;
        } else if c == '\\' {
            if i + 1 < w.len() {
                flush_pending(&mut regex, &mut pending);
                let mut escaped_char = String::new();
                push_char(&mut escaped_char, w[i + 1]);
                assert(rest[1] == w@[i + 1]);
                append_literal(&mut regex, escaped_char.as_str());
                assert(rest.skip(2) == w@.skip(i + 2));
                i = i + 2;
            } else {
                flush_pending(&mut regex, &mut pending);
                assert(w@.skip(w.len() as int).len() == 0);
                i = w.len();
            }
        } else {
            push_char(&mut pending, c);
            assert(rest.drop_first() == w@.skip(i + 1));
            i = i + 1;
        }
    }
    flush_pending(&mut regex, &mut pending);
    regex
}

/// A run of adjacent literal characters of a regex: where it stands, as
/// character offsets into the regex, and the characters it holds.
#[derive(Debug, PartialEq, Eq)]
pub struct LiteralRun {
    pub start: usize,
    pub end: usize,
    pub text: String,
}

pub struct LiteralRunView {
    pub start: int,
    pub end: int,
    pub text: Seq<char>,
}

impl View for LiteralRun {
    type V = LiteralRunView;

    open spec fn view(&self) -> LiteralRunView {
        LiteralRunView { start: self.start as int, end: self.end as int, text: self.text@ }
    }
}

pub open spec fn runs_view(runs: Seq<LiteralRun>) -> Seq<LiteralRunView> {
    runs.map_values(|r: LiteralRun| r@)
}

/// The literal runs of a regex, gathered literal by literal in the order in
/// which a pre-order walk of its syntax tree meets them.
pub struct LiteralRuns {
    runs: Vec<LiteralRun>,
}

impl View for LiteralRuns {
    type V = Seq<LiteralRunView>;

    closed spec fn view(&self) -> Seq<LiteralRunView> {
        runs_view(self.runs@)
    }
}

/// The runs once the literal `c`, standing at `start..end`, is met: it
/// extends the last run when it starts where that run ends, and starts a new
/// run otherwise.
pub open spec fn runs_with_literal(
    runs: Seq<LiteralRunView>,
    start: int,
    end: int,
    c: char,
) -> Seq<LiteralRunView> {
    if runs.len() > 0 && runs.last().end == start {
        runs.drop_last().push(
            LiteralRunView { start: runs.last().start, end, text: runs.last().text.push(c) },
        )
    } else {
        runs.push(LiteralRunView { start, end, text: seq![c] })
    }
}

impl LiteralRuns {
    pub fn new() -> (r: LiteralRuns)
        ensures
            r@ == Seq::<LiteralRunView>::empty(),
    {
        let r = LiteralRuns { runs: Vec::new() };
        assert(r@ =~= Seq::<LiteralRunView>::empty());
        r
    }

    /// Takes in the literal `c`, which stands at `start..end` in the regex.
    pub fn visit_literal(&mut self, start: usize, end: usize, c: char)
        ensures
            final(self)@ == runs_with_literal(old(self)@, start as int, end as int, c),
    {
        let ghost old_runs = self.runs@;
        let n = self.runs.len();
        if n > 0 && self.runs[n - 1].end == start {
            let mut previous = self.runs.pop().unwrap();
            previous.end = end;
            push_char(&mut previous.text, c);
            self.runs.push(previous);
            assert(self.runs@ == old_runs.drop_last().push(previous));
            assert(runs_view(self.runs@) =~= runs_view(old_runs).drop_last().push(previous@));
        } else {
            let mut text = String::new();
            push_char(&mut text, c);
            let run = LiteralRun { start, end, text };
            self.runs.push(run);
            assert(self.runs@ == old_runs.push(run));
            assert(runs_view(self.runs@) =~= runs_view(old_runs).push(run@));
        }
    }

    /// The runs gathered so far.
    pub fn finish(self) -> (r: Vec<LiteralRun>)
        ensures
            runs_view(r@) == self@,
    {
        self.runs
    }
}

#[verifier::external_type_specification]
#[verifier::external_body]
pub struct ExAst(regex_syntax::ast::Ast);

/// The syntax tree of a regex as far as its literals go: each literal with
/// where it stands (character offsets into the regex), every other node with
/// its sub-trees in order (none for a leaf that is not a literal).
#[derive(Debug, PartialEq, Eq)]
pub enum RegexNode {
    Literal { start: usize, end: usize, c: char },
    Node { children: Vec<RegexNode> },
}

/// The tree that `regex_syntax`'s syntax parser gives for a regex, or `None`
/// when it rejects the regex.
pub uninterp spec fn parsed_regex(regex: Seq<char>) -> Option<RegexNode>;

/// Trusted: `regex_syntax::ast::parse::Parser::new().parse` either rejects
/// the regex or gives its syntax tree, converted node by node; what it gives
/// is a function of the regex alone, named `parsed_regex`.
#[verifier::external_body]
fn parse_regex_nodes(regex: &str) -> (r: Option<RegexNode>)
    ensures
        r == parsed_regex(regex@),
{
    match regex_syntax::ast::parse::Parser::new().parse(regex) {
        Ok(ast) => Some(regex_node(regex, &ast)),
        Err(_) => None,
    }
}

/// Converts a syntax tree of `regex_syntax` into a `RegexNode`, with the byte
/// offsets of the literals turned into character offsets.
#[verifier::external_body]
fn regex_node(regex: &str, ast: &Ast) -> RegexNode {
    let children = match ast {
        Ast::Literal(lit) => {
            let start = regex[..lit.span.start.offset].chars().count();
            let end = regex[..lit.span.end.offset].chars().count();
            return RegexNode::Literal { start, end, c: lit.c };
        },
        Ast::Repetition(rep) => vec![regex_node(regex, &rep.ast)],
        Ast::Group(group) => vec![regex_node(regex, &group.ast)],
        Ast::Alternation(alt) => alt.asts.iter().map(|a| regex_node(regex, a)).collect(),
        Ast::Concat(concat) => concat.asts.iter().map(|a| regex_node(regex, a)).collect(),
        _ => Vec::new(),
    };
    RegexNode::Node { children }
}

/// The literals of a tree, in pre-order: where each stands, and its character.
pub open spec fn node_literals(node: RegexNode) -> Seq<(int, int, char)>
    decreases node,
{
    match node {
        RegexNode::Literal { start, end, c } => seq![(start as int, end as int, c)],
        RegexNode::Node { children } => nodes_literals(children@),
    }
}

pub open spec fn nodes_literals(nodes: Seq<RegexNode>) -> Seq<(int, int, char)>
    decreases nodes,
{
    if nodes.len() == 0 {
        Seq::empty()
    } else {
        nodes_literals(nodes.drop_last()) + node_literals(nodes.last())
    }
}

/// Literals that stand within a regex of `len` characters, each at or after
/// the end of the one before.
pub open spec fn literals_in_order(lits: Seq<(int, int, char)>, len: int) -> bool {
    &&& forall|i: int| 0 <= i < lits.len() ==> 0 <= #[trigger] lits[i].0 <= lits[i].1 <= len
    &&& forall|i: int, j: int| 0 <= i < j < lits.len() ==> #[trigger] lits[i].1 <= #[trigger] lits[j].0
}

/// The runs that the literals make, met one after the other.
pub open spec fn runs_of_literals(lits: Seq<(int, int, char)>) -> Seq<LiteralRunView>
    decreases lits.len(),
{
    if lits.len() == 0 {
        Seq::empty()
    } else {
        runs_with_literal(runs_of_literals(lits.drop_last()), lits.last().0, lits.last().1, lits.last().2)
    }
}

proof fn lemma_runs_of_literals_last(lits: Seq<(int, int, char)>)
    ensures
        (runs_of_literals(lits).len() > 0) == (lits.len() > 0),
        lits.len() > 0 ==> runs_of_literals(lits).last().end == lits.last().1,
{
    if lits.len() > 0 {
        let r = runs_of_literals(lits.drop_last());
        let l = lits.last();
        if r.len() > 0 && r.last().end == l.0 {
            assert(runs_with_literal(r, l.0, l.1, l.2).last().end == l.1);
        }
    }
}

/// Appends the literals of a tree, in pre-order.
fn push_literals(node: &RegexNode, out: &mut Vec<(usize, usize, char)>)
    ensures
        lits_view(final(out)@) == lits_view(old(out)@) + node_literals(*node),
    decreases node,
{
    match node {
        RegexNode::Literal { start, end, c } => {
            let ghost before = out@;
            out.push((*start, *end, *c));
            assert(lits_view(out@) =~= lits_view(before) + node_literals(*node));
        },
        RegexNode::Node { children } => {
            let ghost start = lits_view(out@);
            let mut i: usize = 0;
            assert(children@.take(0) =~= Seq::<RegexNode>::empty());
            assert(start + nodes_literals(children@.take(0)) =~= start);
            while i < children.len()
                invariant
                    0 <= i <= children.len(),
                    lits_view(out@) == start + nodes_literals(children@.take(i as int)),
                    decreases_to!(node => children@),
                decreases children.len() - i,
            {
                assert(decreases_to!(children@ => children@[i as int]));
                push_literals(&children[i], out);
                assert(children@.take(i + 1).drop_last() == children@.take(i as int));
                assert(children@.take(i + 1).last() == children@[i as int]);
                i = i + 1;
            }
            assert(children@.take(children.len() as int) == children@);
        },
    }
}

pub open spec fn lits_view(lits: Seq<(usize, usize, char)>) -> Seq<(int, int, char)> {
    lits.map_values(|l: (usize, usize, char)| (l.0 as int, l.1 as int, l.2))
}

/// The literal runs of a regex: the maximal runs of literals that stand next
/// to each other, met in a pre-order walk of its syntax tree; `None` when the
/// regex does not parse (or, which the parser never gives, when its literals
/// do not stand in order within it).
pub fn literal_runs(regex: &str) -> (r: Option<Vec<LiteralRun>>)
    ensures
        r is Some <==> (parsed_regex(regex@) matches Some(tree) && literals_in_order(
            node_literals(tree),
            regex@.len() as int,
        )),
        r matches Some(runs) ==> parsed_regex(regex@) matches Some(tree) && runs_view(runs@)
            == runs_of_literals(node_literals(tree)),
        r matches Some(runs) ==> runs_in_order(runs_view(runs@), regex@.len() as int),
{
    let tree = match parse_regex_nodes(regex) {
        Some(tree) => tree,
        None => return None,
    };
    let len = regex.unicode_len();
    let mut lits: Vec<(usize, usize, char)> = Vec::new();
    push_literals(&tree, &mut lits);
    let ghost lv = lits_view(lits@);
    assert(lv == node_literals(tree));
    let mut runs = LiteralRuns::new();
    let mut last_end: usize = 0;
    let mut i: usize = 0;
    assert(lv.take(0) =~= Seq::<(int, int, char)>::empty());
    while i < lits.len()
        invariant
            0 <= i <= lits.len(),
            lv == lits_view(lits@),
            len == regex@.len(),
            last_end <= len,
            i > 0 ==> last_end == lv[i - 1].1,
            i == 0 ==> last_end == 0,
            parsed_regex(regex@) == Some(tree),
            node_literals(tree) == lv,
            literals_in_order(lv.take(i as int), len as int),
            runs@ == runs_of_literals(lv.take(i as int)),
            runs_in_order(runs@, len as int),
        decreases lits.len() - i,
    {
        let (start, end, c) = lits[i];
        assert(lv[i as int] == (start as int, end as int, c));
        if start < last_end || end < start || len < end {
            proof {
                if literals_in_order(lv, len as int) {
                    assert(0 <= lv[i as int].0 <= lv[i as int].1 <= len);
                    if i > 0 {
                        assert(lv[i - 1].1 <= lv[i as int].0);
                    }
                    assert(false);
                }
                assert(parsed_regex(regex@) == Some(tree));
                assert(node_literals(tree) == lv);
            }
            return None;
        }
        proof {
            let t = lv.take(i as int);
            lemma_runs_of_literals_last(t);
            if t.len() > 0 {
                assert(t.last() == lv[i - 1]);
            }
            lemma_runs_with_literal_in_order(runs@, start as int, end as int, c, len as int);
        }
        runs.visit_literal(start, end, c);
        proof {
            let t1 = lv.take(i + 1);
            assert(t1.drop_last() == lv.take(i as int));
            assert(t1.last() == lv[i as int]);
            assert forall|a: int| 0 <= a < t1.len() implies 0 <= #[trigger] t1[a].0 <= t1[a].1 <= len by {
                if a < i {
                    assert(t1[a] == lv.take(i as int)[a]);
                }
            }
            assert forall|a: int, b: int| 0 <= a < b < t1.len() implies #[trigger] t1[a].1
                <= #[trigger] t1[b].0 by {
                assert(t1[a] == lv[a]);
                if b < i {
                    assert(t1[b] == lv.take(i as int)[b]);
                    assert(lv.take(i as int)[a] == lv[a]);
                } else if a < i - 1 {
                    assert(lv.take(i as int)[a] == lv[a]);
                    assert(lv.take(i as int)[i - 1] == lv[i - 1]);
                }
            }
        }
        last_end = end;
        i = i + 1;
    }
    assert(lv.take(lits.len() as int) == lv);
    let result = runs.finish();
    Some(result)
}

/// Runs that stand in order, without overlap, inside a regex of `len`
/// characters.
pub open spec fn runs_in_order(runs: Seq<LiteralRunView>, len: int) -> bool {
    &&& forall|i: int| 0 <= i < runs.len() ==> 0 <= #[trigger] runs[i].start <= runs[i].end <= len
    &&& forall|i: int, j: int| 0 <= i < j < runs.len() ==> #[trigger] runs[i].end <= #[trigger] runs[j].start
}

/// Literals met in order, each starting at or after the end of the one
/// before and within the regex, leave the runs in order.
pub proof fn lemma_runs_with_literal_in_order(
    runs: Seq<LiteralRunView>,
    start: int,
    end: int,
    c: char,
    len: int,
)
    requires
        runs_in_order(runs, len),
        runs.len() > 0 ==> runs.last().end <= start,
        0 <= start <= end <= len,
    ensures
        runs_in_order(runs_with_literal(runs, start, end, c), len),
{
    let r = runs_with_literal(runs, start, end, c);
    if runs.len() > 0 && runs.last().end == start {
        assert forall|i: int| 0 <= i < r.len() implies 0 <= #[trigger] r[i].start <= r[i].end
            <= len by {
            if i < r.len() - 1 {
                assert(r[i] == runs[i]);
            } else {
                assert(runs[runs.len() - 1].start <= runs[runs.len() - 1].end);
            }
        }
        assert forall|i: int, j: int| 0 <= i < j < r.len() implies #[trigger] r[i].end
            <= #[trigger] r[j].start by {
            assert(r[i] == runs[i]);
            if j < r.len() - 1 {
                assert(r[j] == runs[j]);
            } else {
                assert(r[j].start == runs[runs.len() - 1].start);
            }
        }
    } else {
        assert forall|i: int| 0 <= i < r.len() implies 0 <= #[trigger] r[i].start <= r[i].end
            <= len by {
            if i < r.len() - 1 {
                assert(r[i] == runs[i]);
            }
        }
        assert forall|i: int, j: int| 0 <= i < j < r.len() implies #[trigger] r[i].end
            <= #[trigger] r[j].start by {
            assert(r[i] == runs[i]);
            if j < r.len() - 1 {
                assert(r[j] == runs[j]);
            } else {
                if i < runs.len() - 1 {
                    assert(runs[i].end <= runs[runs.len() - 1].start);
                }
                assert(runs[runs.len() - 1].start <= runs[runs.len() - 1].end);
            }
        }
    }
}

/// The regex with each run replaced by the escaped text given for it.
pub open spec fn splice_runs(
    regex: Seq<char>,
    runs: Seq<LiteralRunView>,
    texts: Seq<Seq<char>>,
) -> Seq<char>
    decreases runs.len(),
{
    if runs.len() == 0 {
        regex
    } else {
        splice_runs(regex.take(runs.last().start), runs.drop_last(), texts.drop_last())
            + escaped(texts.last()) + regex.skip(runs.last().end)
    }
}

proof fn lemma_splice_runs_extend(
    regex: Seq<char>,
    extra: Seq<char>,
    runs: Seq<LiteralRunView>,
    texts: Seq<Seq<char>>,
)
    requires
        runs_in_order(runs, regex.len() as int),
    ensures
        splice_runs(regex + extra, runs, texts) == splice_runs(regex, runs, texts) + extra,
    decreases runs.len(),
{
    if runs.len() > 0 {
        let last = runs.last();
        let init = runs.drop_last();
        assert((regex + extra).take(last.start) == regex.take(last.start));
        assert((regex + extra).skip(last.end) == regex.skip(last.end) + extra);
    }
}

/// Why the normalization of a literal failed.
#[derive(Clone, Copy, Debug, PartialEq, Eq)]
pub enum NormalizeLiteralsError {
    /// The normalizer generated no token.
    NoContent,
    /// The normalizer generated several tokens.
    MultipleTokens,
}

/// The outcome of normalizing one literal run, given the tokens that the
/// normalizer generated for it.
pub open spec fn single_token_outcome(tokens: Seq<Seq<char>>) -> Result<
    Seq<char>,
    NormalizeLiteralsError,
> {
    if tokens.len() == 0 {
        Err(NormalizeLiteralsError::NoContent)
    } else if tokens.len() > 1 {
        Err(NormalizeLiteralsError::MultipleTokens)
    } else {
        Ok(tokens[0])
    }
}

pub open spec fn tokens_view(tokens: Seq<Vec<String>>) -> Seq<Seq<Seq<char>>> {
    tokens.map_values(|t: Vec<String>| t@.map_values(|s: String| s@))
}

/// The error of the first run whose tokens are not exactly one, if any.
pub open spec fn first_token_error(tokens: Seq<Seq<Seq<char>>>) -> Option<NormalizeLiteralsError>
    decreases tokens.len(),
{
    if tokens.len() == 0 {
        None
    } else {
        match first_token_error(tokens.drop_last()) {
            Some(e) => Some(e),
            None => match single_token_outcome(tokens.last()) {
                Ok(_) => None,
                Err(e) => Some(e),
            },
        }
    }
}

/// The single tokens of the runs (meaningful when there is no error).
pub open spec fn single_tokens(tokens: Seq<Seq<Seq<char>>>) -> Seq<Seq<char>> {
    tokens.map_values(|t: Seq<Seq<char>>| t[0])
}

fn single_token(tokens: &Vec<String>) -> (r: Result<String, NormalizeLiteralsError>)
    ensures
        match r {
            Ok(t) => single_token_outcome(tokens@.map_values(|s: String| s@)) == Ok::<
                Seq<char>,
                NormalizeLiteralsError,
            >(t@),
            Err(e) => single_token_outcome(tokens@.map_values(|s: String| s@)) == Err::<
                Seq<char>,
                NormalizeLiteralsError,
            >(e),
        },
{
    if tokens.len() == 0 {
        Err(NormalizeLiteralsError::NoContent)
    } else if tokens.len() > 1 {
        Err(NormalizeLiteralsError::MultipleTokens)
    } else {
        Ok(tokens[0].clone())
    }
}

/// Replaces each literal run of the regex by the escaped token that the
/// normalizer generated for it. `tokens[k]` holds the tokens generated for
/// `runs[k]`; a run must yield exactly one token, else the first run that
/// does not gives the error.
pub fn normalize_literal_runs(regex: &str, runs: &Vec<LiteralRun>, tokens: &Vec<Vec<String>>) -> (r:
    Result<String, NormalizeLiteralsError>)
    requires
        runs_in_order(runs_view(runs@), regex@.len() as int),
        tokens.len() == runs.len(),
    ensures
        match r {
            Ok(normalized) => first_token_error(tokens_view(tokens@)) is None && normalized@
                == splice_runs(regex@, runs_view(runs@), single_tokens(tokens_view(tokens@))),
            Err(e) => first_token_error(tokens_view(tokens@)) == Some(e),
        },
{
    let ghost rv = runs_view(runs@);
    let ghost tv = tokens_view(tokens@);
    let chars = chars_of(regex);
    let mut normalized = String::new();
    let mut offset: usize = 0;
    let mut k: usize = 0;
    assert(rv.take(0) =~= Seq::<LiteralRunView>::empty());
    assert(tv.take(0) =~= Seq::<Seq<Seq<char>>>::empty());
    while k < runs.len()
        invariant
            0 <= k <= runs.len(),
            tokens.len() == runs.len(),
            rv == runs_view(runs@),
            tv == tokens_view(tokens@),
            chars@ == regex@,
            runs_in_order(rv, regex@.len() as int),
            offset <= regex@.len(),
            k > 0 ==> offset == rv[k - 1].end,
            k == 0 ==> offset == 0,
            first_token_error(tv.take(k as int)) is None,
            normalized@ == splice_runs(
                regex@.take(offset as int),
                rv.take(k as int),
                single_tokens(tv.take(k as int)),
            ),
        decreases runs.len() - k,
    {
        let run = &runs[k];
        assert(rv[k as int] == run@);
        let text = match single_token(&tokens[k]) {
            Ok(text) => text,
            Err(e) => {
                assert(tv.take(k + 1).drop_last() == tv.take(k as int));
                assert(tv.take(k + 1).last() == tokens@[k as int]@.map_values(|s: String| s@));
                proof { lemma_first_token_error_prefix(tv, k as int + 1); }
                return Err(e);
            },
        };
        assert(tv.take(k + 1).drop_last() == tv.take(k as int));
        assert(tv.take(k + 1).last() == tokens@[k as int]@.map_values(|s: String| s@));
        assert(0 <= rv[k as int].start <= rv[k as int].end <= regex@.len());
        if k > 0 {
            assert(rv[k - 1].end <= rv[k as int].start);
        }
        // The regex between the previous run and this one is copied.
        let ghost before = normalized@;
        let mut i: usize = offset;
        while i < run.start
            invariant
                offset <= i <= run.start,
                run.start <= chars@.len(),
                chars@ == regex@,
                normalized@ == before + regex@.subrange(offset as int, i as int),
            decreases run.start - i,
        {
            push_char(&mut normalized, chars[i]);
            assert(regex@.subrange(offset as int, i + 1) == regex@.subrange(
                offset as int,
                i as int,
            ).push(regex@[i as int]));
            i = i + 1;
        }
        let escaped_text = escape(text.as_str());
        normalized.append(escaped_text.as_str());
        proof {
            let r0 = regex@.take(offset as int);
            let gap = regex@.subrange(offset as int, run.start as int);
            let runs_k = rv.take(k as int);
            assert(runs_in_order(runs_k, r0.len() as int)) by {
                assert forall|i: int| 0 <= i < runs_k.len() implies 0 <= #[trigger] runs_k[i].start
                    <= runs_k[i].end <= r0.len() by {
                    assert(runs_k[i] == rv[i]);
                    if i < k - 1 {
                        assert(rv[i].end <= rv[k - 1].start);
                    }
                }
                assert forall|i: int, j: int| 0 <= i < j < runs_k.len() implies #[trigger] runs_k[i].end
                    <= #[trigger] runs_k[j].start by {
                    assert(runs_k[i] == rv[i] && runs_k[j] == rv[j]);
                }
            }
            lemma_splice_runs_extend(r0, gap, runs_k, single_tokens(tv.take(k as int)));
            if k > 0 {
                assert(rv[k - 1].end <= rv[k as int].start);
            }
            assert(r0 + gap == regex@.take(run.start as int));
            let rk1 = rv.take(k + 1);
            assert(rk1.drop_last() == runs_k);
            assert(rk1.last() == rv[k as int]);
            let t1 = single_tokens(tv.take(k + 1));
            assert(t1.drop_last() == single_tokens(tv.take(k as int)));
            assert(t1.last() == text@);
            let re = regex@.take(run.end as int);
            assert(re.take(run.start as int) == regex@.take(run.start as int));
            assert(re.skip(run.end as int) =~= Seq::<char>::empty());
        }
        offset = run.end;
        k = k + 1;
    }
    // The regex after the last run is copied.
    let ghost before = normalized@;
    let mut i: usize = offset;
    while i < chars.len()
        invariant
            offset <= i <= chars@.len(),
            chars@ == regex@,
            normalized@ == before + regex@.subrange(offset as int, i as int),
        decreases chars.len() - i,
    {
        push_char(&mut normalized, chars[i]);
        assert(regex@.subrange(offset as int, i + 1) == regex@.subrange(offset as int, i as int).push(
            regex@[i as int],
        ));
        i = i + 1;
    }
    proof {
        let r0 = regex@.take(offset as int);
        let rest = regex@.subrange(offset as int, regex@.len() as int);
        assert(rv.take(runs.len() as int) == rv);
        assert(tv.take(runs.len() as int) == tv);
        lemma_splice_runs_extend(r0, rest, rv, single_tokens(tv));
        assert(r0 + rest == regex@);
    }
    Ok(normalized)
}

proof fn lemma_first_token_error_prefix(tv: Seq<Seq<Seq<char>>>, k: int)
    requires
        0 <= k <= tv.len(),
        first_token_error(tv.take(k)) is Some,
    ensures
        first_token_error(tv) == first_token_error(tv.take(k)),
    decreases tv.len(),
{
    if k < tv.len() {
        assert(tv.drop_last().take(k) == tv.take(k));
        lemma_first_token_error_prefix(tv.drop_last(), k);
    } else {
        assert(tv.take(k) == tv);
    }
}


/// The pattern ends inside an escape: its last backslash has nothing after it
/// to escape.
pub open spec fn escape_open(u: Seq<char>) -> bool
    decreases u.len(),
{
    if u.len() == 0 {
        false
    } else if u[0] == '\\' {
        if u.len() == 1 {
            true
        } else {
            escape_open(u.skip(2))
        }
    } else {
        escape_open(u.drop_first())
    }
}

/// What a wildcard operator stands for in the regex: `.*` for `*`, `.` for
/// `?`.
pub open spec fn operator_regex(c: char) -> Seq<char> {
    if c == '*' {
        seq!['.', '*']
    } else {
        seq!['.']
    }
}

proof fn lemma_translate_operator(u: Seq<char>, pending: Seq<char>, c: char, w: Seq<char>)
    requires
        c == '*' || c == '?',
        !escape_open(u),
    ensures
        translate_wildcard(u + seq![c] + w, pending) == translate_wildcard(u, pending)
            + operator_regex(c) + translate_wildcard(w, Seq::empty()),
    decreases u.len(),
{
    let x = u + seq![c] + w;
    if u.len() == 0 {
        assert(x == seq![c] + w);
        assert(x[0] == c);
        assert(x.drop_first() == w);
    } else {
        assert(x[0] == u[0]);
        if u[0] == '*' || u[0] == '?' {
            lemma_translate_operator(u.drop_first(), Seq::empty(), c, w);
            assert(x.drop_first() == u.drop_first() + seq![c] + w);
        } else if u[0] == '\\' {
            assert(u.len() > 1);
            assert(x[1] == u[1]);
            assert(x.len() > 1);
            lemma_translate_operator(u.skip(2), Seq::empty(), c, w);
            assert(x.skip(2) == u.skip(2) + seq![c] + w);
        } else {
            lemma_translate_operator(u.drop_first(), pending.push(u[0]), c, w);
            assert(x.drop_first() == u.drop_first() + seq![c] + w);
        }
    }
}

/// Each `*` or `?` of a pattern that is not escaped stands for `.*` or `.`,
/// wherever it is: the regex of `u`, the operator, then `w` is the regex of
/// `u`, the operator's regex, then the regex of `w` without its case flag.
pub proof fn lemma_wildcard_operator(u: Seq<char>, c: char, w: Seq<char>, case_insensitive: bool)
    requires
        c == '*' || c == '?',
        !escape_open(u),
    ensures
        wildcard_regex(u + seq![c] + w, case_insensitive) == wildcard_regex(u, case_insensitive)
            + operator_regex(c) + wildcard_regex(w, case_insensitive).skip(
            case_flag(case_insensitive).len() as int,
        ),
{
    lemma_translate_operator(u, Seq::empty(), c, w);
    let f = case_flag(case_insensitive);
    assert((f + translate_wildcard(w, Seq::empty())).skip(f.len() as int) == translate_wildcard(
        w,
        Seq::empty(),
    ));
}


/// No character of `u` is a wildcard operator or an escape.
pub open spec fn plain_text(u: Seq<char>) -> bool {
    forall|i: int| 0 <= i < u.len() ==> #[trigger] u[i] != '*' && u[i] != '?' && u[i] != '\\'
}

proof fn lemma_translate_plain(u: Seq<char>, pending: Seq<char>)
    requires
        plain_text(u),
    ensures
        translate_wildcard(u, pending) == flush_literal(pending + u),
    decreases u.len(),
{
    if u.len() == 0 {
        assert(pending + u == pending);
    } else {
        assert(u[0] != '*' && u[0] != '?' && u[0] != '\\');
        assert forall|i: int| 0 <= i < u.drop_first().len() implies #[trigger] u.drop_first()[i]
            != '*' && u.drop_first()[i] != '?' && u.drop_first()[i] != '\\' by {
            assert(u.drop_first()[i] == u[i + 1]);
        }
        lemma_translate_plain(u.drop_first(), pending.push(u[0]));
        assert(pending.push(u[0]) + u.drop_first() == pending + u);
    }
}

/// A pattern of plain characters matches itself literally: its regex is the
/// case flag and one literal group of the whole text.
pub proof fn lemma_wildcard_plain_text(u: Seq<char>, case_insensitive: bool)
    requires
        plain_text(u),
        u.len() > 0,
    ensures
        wildcard_regex(u, case_insensitive) == case_flag(case_insensitive) + seq!['(', '?', ':']
            + escaped(u) + seq![')'],
{
    lemma_translate_plain(u, Seq::empty());
    assert(Seq::<char>::empty() + u == u);
}

proof fn lemma_translate_escape(u: Seq<char>, pending: Seq<char>, c: char, w: Seq<char>)
    requires
        !escape_open(u),
    ensures
        translate_wildcard(u + seq!['\\', c] + w, pending) == translate_wildcard(u, pending)
            + literal_group(seq![c]) + translate_wildcard(w, Seq::empty()),
    decreases u.len(),
{
    let x = u + seq!['\\', c] + w;
    if u.len() == 0 {
        assert(x == seq!['\\', c] + w);
        assert(x[0] == '\\' && x[1] == c);
        assert(x.skip(2) == w);
    } else {
        assert(x[0] == u[0]);
        if u[0] == '*' || u[0] == '?' {
            lemma_translate_escape(u.drop_first(), Seq::empty(), c, w);
            assert(x.drop_first() == u.drop_first() + seq!['\\', c] + w);
        } else if u[0] == '\\' {
            assert(u.len() > 1);
            assert(x[1] == u[1]);
            lemma_translate_escape(u.skip(2), Seq::empty(), c, w);
            assert(x.skip(2) == u.skip(2) + seq!['\\', c] + w);
        } else {
            lemma_translate_escape(u.drop_first(), pending.push(u[0]), c, w);
            assert(x.drop_first() == u.drop_first() + seq!['\\', c] + w);
        }
    }
}

/// An escaped character stands for itself alone, wherever it is: the regex of
/// `u`, then a backslash and `c`, then `w` is the regex of `u`, the literal
/// group of `c`, then the regex of `w` without its case flag.
pub proof fn lemma_wildcard_escape(u: Seq<char>, c: char, w: Seq<char>, case_insensitive: bool)
    requires
        !escape_open(u),
    ensures
        wildcard_regex(u + seq!['\\', c] + w, case_insensitive) == wildcard_regex(
            u,
            case_insensitive,
        ) + seq!['(', '?', ':'] + escaped(seq![c]) + seq![')'] + wildcard_regex(
            w,
            case_insensitive,
        ).skip(case_flag(case_insensitive).len() as int),
{
    lemma_translate_escape(u, Seq::empty(), c, w);
    let f = case_flag(case_insensitive);
    assert((f + translate_wildcard(w, Seq::empty())).skip(f.len() as int) == translate_wildcard(
        w,
        Seq::empty(),
    ));
}

} // verus!
