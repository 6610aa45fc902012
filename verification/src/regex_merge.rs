//! Merging of regex alternatives by field inside boolean unions.
//!
//! Within the `should` clauses of a boolean query (when at most one of them is
//! required to match) and within its `must_not` clauses, the regex queries on
//! one field are replaced by a single regex query whose pattern is the
//! alternation of theirs, when every one of them resolves and parses.

use vstd::prelude::*;

use crate::query_ast::{QueryAst, QueryAstView, RegexQuery, RegexQueryView, BoolQuery, BoolQueryView};
use crate::query_ast::{ast_view, asts_view, lemma_asts_view_index, lemma_asts_view_len, lemma_asts_view_push};
use crate::text::{chars_of, lex_less, lex_lt, strictly_sorted, push_char};
use crate::vec_util::reversed;
use crate::text::{lemma_lex_lt_irreflexive, lemma_lex_lt_total};
use crate::text::{lemma_lex_lt_transitive, lemma_strictly_sorted_unique};

verus! {

#[verifier::external_type_specification]
#[verifier::external_body]
pub struct ExHir(regex_syntax::hir::Hir);

/// Whether `regex_syntax::Parser` accepts the pattern.
pub uninterp spec fn regex_parses(pattern: Seq<char>) -> bool;

/// The text that `regex_syntax` prints for the alternation of the parsed
/// patterns.
pub uninterp spec fn alternation_text(patterns: Seq<Seq<char>>) -> Seq<char>;

/// A pattern together with the regex it parses to.
struct ParsedRegex {
    pattern: String,
    hir: regex_syntax::hir::Hir,
}

impl View for ParsedRegex {
    type V = Seq<char>;

    closed spec fn view(&self) -> Seq<char> {
        self.pattern@
    }
}

/// Trusted: `regex_syntax::Parser::new().parse` either accepts the pattern or
/// fails; whether it accepts is a function of the pattern alone, named
/// `regex_parses`. The parsed regex is kept with its pattern.
#[verifier::external_body]
fn parse_regex(pattern: String) -> (r: Option<ParsedRegex>)
    ensures
        r is Some <==> regex_parses(pattern@),
        r matches Some(p) ==> p@ == pattern@,
{
    match regex_syntax::Parser::new().parse(&pattern) {
        Ok(hir) => Some(ParsedRegex { pattern, hir }),
        Err(_) => None,
    }
}

/// Trusted: `regex_syntax::hir::Hir::alternation` of the parsed regexes,
/// printed through `Hir`'s `Display`, is a function of the parsed patterns
/// alone, named `alternation_text`.
#[verifier::external_body]
fn alternation_to_string(alternatives: Vec<ParsedRegex>) -> (r: String)
    ensures
        r@ == alternation_text(alternatives@.map_values(|p: ParsedRegex| p@)),
{
    let hirs: Vec<regex_syntax::hir::Hir> = alternatives.into_iter().map(|p| p.hir).collect();
    regex_syntax::hir::Hir::alternation(hirs).to_string()
}

/// What resolving a regex query against the schema and its tokenizers gave:
/// the resolved pattern, or `None` when the query could not be resolved.
pub struct RegexResolution {
    pub query: RegexQuery,
    pub resolved: Option<String>,
}

pub open spec fn option_string_view(o: Option<String>) -> Option<Seq<char>> {
    match o {
        Some(s) => Some(s@),
        None => None,
    }
}

impl View for RegexResolution {
    type V = (RegexQueryView, Option<Seq<char>>);

    open spec fn view(&self) -> (RegexQueryView, Option<Seq<char>>) {
        (self.query@, option_string_view(self.resolved))
    }
}

/// The context in which queries are built: the resolution of the regex
/// queries against the index schema and its tokenizers, computed beforehand.
pub struct BuildTantivyAstContext {
    resolutions: Vec<RegexResolution>,
}

impl View for BuildTantivyAstContext {
    type V = Seq<(RegexQueryView, Option<Seq<char>>)>;

    closed spec fn view(&self) -> Seq<(RegexQueryView, Option<Seq<char>>)> {
        self.resolutions@.map_values(|r: RegexResolution| r@)
    }
}

/// Whether two regex queries resolve alike: same field, same pattern, same
/// literal normalization.
pub open spec fn same_resolution_key(a: RegexQueryView, b: RegexQueryView) -> bool {
    a.field == b.field && a.regex == b.regex && a.normalize_literals == b.normalize_literals
}

/// The resolved pattern of `q`: that of the first resolution recorded for a
/// query with the same key, or `None` when there is none.
pub open spec fn resolve_spec(
    resolutions: Seq<(RegexQueryView, Option<Seq<char>>)>,
    q: RegexQueryView,
) -> Option<Seq<char>>
    decreases resolutions.len(),
{
    if resolutions.len() == 0 {
        None
    } else if same_resolution_key(resolutions[0].0, q) {
        resolutions[0].1
    } else {
        resolve_spec(resolutions.drop_first(), q)
    }
}

fn same_regex_key(a: &RegexQuery, b: &RegexQuery) -> (r: bool)
    ensures
        r == same_resolution_key(a@, b@),
{
    a.field == b.field && a.regex == b.regex && a.normalize_literals == b.normalize_literals
}

impl BuildTantivyAstContext {
    /// A context without any resolution.
    pub fn new() -> (r: BuildTantivyAstContext)
        ensures
            r@ == Seq::<(RegexQueryView, Option<Seq<char>>)>::empty(),
    {
        let r = BuildTantivyAstContext { resolutions: Vec::new() };
        assert(r@ =~= Seq::<(RegexQueryView, Option<Seq<char>>)>::empty());
        r
    }

    /// Records what resolving `query` gave.
    pub fn add_resolution(&mut self, query: RegexQuery, resolved: Option<String>)
        ensures
            final(self)@ == old(self)@.push((query@, option_string_view(resolved))),
    {
        let entry = RegexResolution { query, resolved };
        self.resolutions.push(entry);
        assert(self@ =~= old(self)@.push((query@, option_string_view(resolved))));
    }

    /// The resolved pattern of `query`, or `None` when it was not resolved.
    pub fn resolve(&self, query: &RegexQuery) -> (r: Option<String>)
        ensures
            option_string_view(r) == resolve_spec(self@, query@),
    {
        let mut i: usize = 0;
        assert(self@.skip(0) == self@);
        while i < self.resolutions.len()
            invariant
                0 <= i <= self.resolutions.len(),
                resolve_spec(self@, query@) == resolve_spec(self@.skip(i as int), query@),
            decreases self.resolutions.len() - i,
        {
            assert(self@.skip(i as int)[0] == self.resolutions@[i as int]@);
            if same_regex_key(&self.resolutions[i].query, query) {
                return match &self.resolutions[i].resolved {
                    Some(s) => Some(s.clone()),
                    None => None,
                };
            }
            assert(self@.skip(i as int).drop_first() == self@.skip(i + 1));
            i = i + 1;
        }
        None
    }
}

/// The clauses that are not regex queries, in order.
pub open spec fn non_regex_clauses(s: Seq<QueryAstView>) -> Seq<QueryAstView>
    decreases s.len(),
{
    if s.len() == 0 {
        s
    } else if s.last() is Regex {
        non_regex_clauses(s.drop_last())
    } else {
        non_regex_clauses(s.drop_last()).push(s.last())
    }
}

/// The regex queries among the clauses, in order.
pub open spec fn regex_clauses(s: Seq<QueryAstView>) -> Seq<RegexQueryView>
    decreases s.len(),
{
    if s.len() == 0 {
        Seq::empty()
    } else if let QueryAstView::Regex(r) = s.last() {
        regex_clauses(s.drop_last()).push(r)
    } else {
        regex_clauses(s.drop_last())
    }
}

/// The regex queries on field `f`, in order.
pub open spec fn field_group(rs: Seq<RegexQueryView>, f: Seq<char>) -> Seq<RegexQueryView>
    decreases rs.len(),
{
    if rs.len() == 0 {
        rs
    } else if rs.last().field == f {
        field_group(rs.drop_last(), f).push(rs.last())
    } else {
        field_group(rs.drop_last(), f)
    }
}

/// The fields that the regex queries are on.
pub open spec fn regex_fields(rs: Seq<RegexQueryView>) -> Set<Seq<char>> {
    Set::new(|f: Seq<char>| exists|i: int| 0 <= i < rs.len() && rs[i].field == f)
}

/// The fields of the regex queries, each once, in increasing order.
pub open spec fn sorted_fields(rs: Seq<RegexQueryView>) -> Seq<Seq<char>> {
    choose|fs: Seq<Seq<char>>| strictly_sorted(fs) && fs.to_set() == regex_fields(rs)
}

/// The pattern that `q` resolves to (empty when it does not resolve).
pub open spec fn resolved_pattern(
    ctx: Seq<(RegexQueryView, Option<Seq<char>>)>,
    q: RegexQueryView,
) -> Seq<char> {
    match resolve_spec(ctx, q) {
        Some(p) => p,
        None => Seq::empty(),
    }
}

/// Every query of the group resolves, to a pattern that parses.
pub open spec fn group_resolves(
    group: Seq<RegexQueryView>,
    ctx: Seq<(RegexQueryView, Option<Seq<char>>)>,
) -> bool {
    forall|i: int|
        0 <= i < group.len() ==> #[trigger] resolve_spec(ctx, group[i]) is Some && regex_parses(
            resolved_pattern(ctx, group[i]),
        )
}

/// The union pattern of a group of at least two regex queries on one field:
/// `(?-i)` followed by the alternation of their resolved patterns; `None`
/// when the group is smaller or one of them does not resolve or parse.
pub open spec fn union_pattern(
    group: Seq<RegexQueryView>,
    ctx: Seq<(RegexQueryView, Option<Seq<char>>)>,
) -> Option<Seq<char>> {
    if group.len() >= 2 && group_resolves(group, ctx) {
        Some(
            seq!['(', '?', '-', 'i', ')'] + alternation_text(
                group.map_values(|q: RegexQueryView| resolved_pattern(ctx, q)),
            ),
        )
    } else {
        None
    }
}

pub open spec fn all_lenient(group: Seq<RegexQueryView>) -> bool {
    forall|i: int| 0 <= i < group.len() ==> #[trigger] group[i].lenient
}

/// What a group of regex queries on one field becomes: one regex query for
/// their union, or the group itself.
pub open spec fn group_outcome(
    group: Seq<RegexQueryView>,
    ctx: Seq<(RegexQueryView, Option<Seq<char>>)>,
) -> Seq<QueryAstView> {
    match union_pattern(group, ctx) {
        Some(p) => seq![
            QueryAstView::Regex(
                RegexQueryView {
                    field: group[0].field,
                    regex: p,
                    lenient: all_lenient(group),
                    normalize_literals: false,
                },
            ),
        ],
        None => group.map_values(|r: RegexQueryView| QueryAstView::Regex(r)),
    }
}

/// The outcomes of the groups of the fields `fs`, one after the other.
pub open spec fn field_outcomes(
    rs: Seq<RegexQueryView>,
    fs: Seq<Seq<char>>,
    ctx: Seq<(RegexQueryView, Option<Seq<char>>)>,
) -> Seq<QueryAstView>
    decreases fs.len(),
{
    if fs.len() == 0 {
        Seq::empty()
    } else {
        field_outcomes(rs, fs.drop_last(), ctx) + group_outcome(field_group(rs, fs.last()), ctx)
    }
}

/// The clauses of a union once its regex queries are merged by field: the
/// other clauses first, in order, then the outcome of each field's group, in
/// increasing field order. Fewer than two clauses are left alone.
pub open spec fn merged_union(
    s: Seq<QueryAstView>,
    ctx: Seq<(RegexQueryView, Option<Seq<char>>)>,
) -> Seq<QueryAstView> {
    if s.len() < 2 {
        s
    } else {
        let rs = regex_clauses(s);
        non_regex_clauses(s) + field_outcomes(rs, sorted_fields(rs), ctx)
    }
}

pub open spec fn regex_views(v: Seq<RegexQuery>) -> Seq<RegexQueryView> {
    v.map_values(|r: RegexQuery| r@)
}

pub open spec fn string_views(v: Seq<String>) -> Seq<Seq<char>> {
    v.map_values(|s: String| s@)
}

/// Splits the clauses into the other clauses and the regex queries.
fn partition_clauses(clauses: Vec<QueryAst>) -> (r: (Vec<QueryAst>, Vec<RegexQuery>))
    ensures
        asts_view(r.0@) == non_regex_clauses(asts_view(clauses@)),
        regex_views(r.1@) == regex_clauses(asts_view(clauses@)),
{
    let ghost v0 = clauses@;
    let n = clauses.len();
    let mut stack = reversed(clauses);
    let mut others: Vec<QueryAst> = Vec::new();
    let mut regexes: Vec<RegexQuery> = Vec::new();
    let mut i: usize = 0;
    while i < n
        invariant
            n == v0.len(),
            0 <= i <= n,
            stack@ == v0.skip(i as int).reverse(),
            asts_view(others@) == non_regex_clauses(asts_view(v0.take(i as int))),
            regex_views(regexes@) == regex_clauses(asts_view(v0.take(i as int))),
        decreases n - i,
    {
        assert(stack@.len() == n - i);
        assert(stack@.last() == v0[i as int]);
        let c = stack.pop().unwrap();
        assert(stack@ =~= v0.skip(i + 1).reverse());
        proof {
            assert(v0.take(i + 1).drop_last() == v0.take(i as int));
            lemma_asts_view_push(v0.take(i as int), c);
            assert(v0.take(i + 1) == v0.take(i as int).push(c));
        }
        let ghost sv = asts_view(v0.take(i as int));
        let ghost sv1 = asts_view(v0.take(i + 1));
        assert(sv1.drop_last() == sv);
        assert(sv1.last() == ast_view(c));
        match c {
            QueryAst::Regex(r) => {
                assert(sv1.last() == QueryAstView::Regex(r@));
                let ghost before = regexes@;
                regexes.push(r);
                assert(regexes@ == before.push(r));
                assert(regex_views(regexes@) =~= regex_views(before).push(r@));
            },
            other => {
                assert(!(sv1.last() is Regex));
                proof { lemma_asts_view_push(others@, other); }
                others.push(other);
            },
        }
        i = i + 1;
    }
    assert(v0.take(n as int) == v0);
    (others, regexes)
}

/// Inserts `f` into a strictly sorted list of fields, unless it is there.
fn insert_field(fields: &mut Vec<String>, f: &String)
    requires
        strictly_sorted(string_views(old(fields)@)),
    ensures
        strictly_sorted(string_views(final(fields)@)),
        string_views(final(fields)@).to_set() == string_views(old(fields)@).to_set().insert(f@),
{
    let ghost old_views = string_views(fields@);
    let fc = chars_of(f.as_str());
    let mut j: usize = 0;
    let mut searching = true;
    while searching && j < fields.len()
        invariant
            fields@ == old(fields)@,
            old_views == string_views(fields@),
            0 <= j <= fields.len(),
            fc@ == f@,
            forall|k: int| 0 <= k < j ==> lex_lt(#[trigger] old_views[k], f@),
            !searching ==> j < fields.len() && !lex_lt(old_views[j as int], f@),
        decreases fields.len() - j + if searching { 1int } else { 0int },
    {
        let cur = chars_of(fields[j].as_str());
        assert(cur@ == old_views[j as int]);
        if lex_less(&cur, &fc) {
            j = j + 1;
        } else {
            searching = false;
        }
    }
    if j < fields.len() && fields[j] == *f {
        assert(old_views[j as int] == f@);
        assert(old_views.to_set().insert(f@) =~= old_views.to_set());
        return;
    }
    proof {
        if j < fields.len() {
            lemma_lex_lt_total(old_views[j as int], f@);
        }
    }
    let ghost jj = j as int;
    fields.insert(j, f.clone());
    let ghost new_views = string_views(fields@);
    assert(new_views =~= old_views.take(jj).push(f@) + old_views.skip(jj));
    assert forall|a: int, b: int| 0 <= a < b < new_views.len() implies lex_lt(
        new_views[a],
        new_views[b],
    ) by {
        if b < jj {
        } else if b == jj {
        } else if a == jj {
            // f < old[jj] <= old[b - 1]
            if b - 1 > jj {
                lemma_lex_lt_transitive(f@, old_views[jj], old_views[b - 1]);
            }
        } else if a < jj {
            assert(lex_lt(f@, old_views[b - 1])) by {
                if b - 1 > jj {
                    lemma_lex_lt_transitive(f@, old_views[jj], old_views[b - 1]);
                }
            }
            lemma_lex_lt_transitive(old_views[a], f@, old_views[b - 1]);
        } else {
        }
    }
    assert forall|x: Seq<char>| new_views.to_set().contains(x) <==> old_views.to_set().insert(
        f@,
    ).contains(x) by {
        if new_views.to_set().contains(x) {
            let k = choose|k: int| 0 <= k < new_views.len() && new_views[k] == x;
            if k < jj {
                assert(old_views[k] == x);
            } else if k > jj {
                assert(old_views[k - 1] == x);
            }
        }
        if old_views.to_set().contains(x) {
            let k = choose|k: int| 0 <= k < old_views.len() && old_views[k] == x;
            if k < jj {
                assert(new_views[k] == x);
            } else {
                assert(new_views[k + 1] == x);
            }
        }
        if x == f@ {
            assert(new_views[jj] == x);
        }
    }
    assert(new_views.to_set() =~= old_views.to_set().insert(f@));
}

/// The fields of the regex queries, each once, in increasing order.
fn sorted_distinct_fields(regexes: &Vec<RegexQuery>) -> (fields: Vec<String>)
    ensures
        string_views(fields@) == sorted_fields(regex_views(regexes@)),
{
    let ghost rs = regex_views(regexes@);
    let mut fields: Vec<String> = Vec::new();
    let mut i: usize = 0;
    assert(string_views(fields@).to_set() =~= regex_fields(rs.take(0)));
    while i < regexes.len()
        invariant
            0 <= i <= regexes.len(),
            rs == regex_views(regexes@),
            strictly_sorted(string_views(fields@)),
            string_views(fields@).to_set() == regex_fields(rs.take(i as int)),
        decreases regexes.len() - i,
    {
        insert_field(&mut fields, &regexes[i].field);
        proof {
            let t0 = rs.take(i as int);
            let t1 = rs.take(i + 1);
            let fi = rs[i as int].field;
            assert forall|f: Seq<char>| #[trigger] regex_fields(t1).contains(f)
                implies regex_fields(t0).insert(fi).contains(f) by {
                let k = choose|k: int| 0 <= k < t1.len() && t1[k].field == f;
                if k < i {
                    assert(t0[k].field == f);
                }
            }
            assert forall|f: Seq<char>| #[trigger] regex_fields(t0).insert(fi).contains(f)
                implies regex_fields(t1).contains(f) by {
                if f == fi {
                    assert(t1[i as int].field == f);
                } else {
                    let k = choose|k: int| 0 <= k < t0.len() && t0[k].field == f;
                    assert(t1[k].field == f);
                }
            }
            assert(regex_fields(t1) =~= regex_fields(t0).insert(fi));
        }
        i = i + 1;
    }
    assert(rs.take(regexes.len() as int) == rs);
    proof {
        let fs = string_views(fields@);
        let chosen = sorted_fields(rs);
        assert(strictly_sorted(chosen) && chosen.to_set() == regex_fields(rs));
        lemma_strictly_sorted_unique(fs, chosen);
    }
    fields
}

/// The regex queries on `field`, in order.
fn field_group_of(regexes: &Vec<RegexQuery>, field: &String) -> (group: Vec<RegexQuery>)
    ensures
        regex_views(group@) == field_group(regex_views(regexes@), field@),
{
    let ghost rs = regex_views(regexes@);
    let mut group: Vec<RegexQuery> = Vec::new();
    let mut i: usize = 0;
    while i < regexes.len()
        invariant
            0 <= i <= regexes.len(),
            rs == regex_views(regexes@),
            regex_views(group@) == field_group(rs.take(i as int), field@),
        decreases regexes.len() - i,
    {
        assert(rs.take(i + 1).drop_last() == rs.take(i as int));
        assert(rs.take(i + 1).last() == regexes@[i as int]@);
        if regexes[i].field == *field {
            let ghost before = group@;
            group.push(regexes[i].clone());
            assert(regex_views(group@) =~= regex_views(before).push(regexes@[i as int]@));
        }
        i = i + 1;
    }
    assert(rs.take(regexes.len() as int) == rs);
    group
}

pub proof fn lemma_field_group_members(rs: Seq<RegexQueryView>, f: Seq<char>)
    ensures
        forall|i: int|
            0 <= i < field_group(rs, f).len() ==> (#[trigger] field_group(rs, f)[i]).field == f,
        field_group(rs, f).len() <= rs.len(),
        regex_fields(rs).contains(f) ==> field_group(rs, f).len() > 0,
    decreases rs.len(),
{
    if rs.len() > 0 {
        lemma_field_group_members(rs.drop_last(), f);
        if regex_fields(rs).contains(f) && rs.last().field != f {
            let k = choose|k: int| 0 <= k < rs.len() && rs[k].field == f;
            assert(rs.drop_last()[k].field == f);
            assert(regex_fields(rs.drop_last()).contains(f));
        }
    }
}

fn all_lenient_exec(group: &Vec<RegexQuery>) -> (r: bool)
    ensures
        r == all_lenient(regex_views(group@)),
        r == (forall|k: int| 0 <= k < group@.len() ==> #[trigger] group@[k].lenient),
{
    let mut i: usize = 0;
    while i < group.len()
        invariant
            0 <= i <= group.len(),
            forall|k: int| 0 <= k < i ==> #[trigger] group@[k].lenient,
        decreases group.len() - i,
    {
        if !group[i].lenient {
            assert(!regex_views(group@)[i as int].lenient);
            return false;
        }
        i = i + 1;
    }
    assert forall|k: int| 0 <= k < regex_views(group@).len() implies #[trigger] regex_views(
        group@,
    )[k].lenient by {
        assert(group@[k].lenient);
    }
    true
}

/// Appends each regex query of the group, as a clause, in order.
fn push_regex_clauses(out: &mut Vec<QueryAst>, group: Vec<RegexQuery>)
    ensures
        asts_view(final(out)@) == asts_view(old(out)@) + regex_views(group@).map_values(
            |r: RegexQueryView| QueryAstView::Regex(r),
        ),
{
    let ghost g0 = group@;
    let ghost start = asts_view(out@);
    let n = group.len();
    let mut stack = reversed(group);
    let mut i: usize = 0;
    while i < n
        invariant
            n == g0.len(),
            0 <= i <= n,
            stack@ == g0.skip(i as int).reverse(),
            asts_view(out@) == start + regex_views(g0.take(i as int)).map_values(
                |r: RegexQueryView| QueryAstView::Regex(r),
            ),
        decreases n - i,
    {
        assert(stack@.len() == n - i);
        assert(stack@.last() == g0[i as int]);
        let r = stack.pop().unwrap();
        assert(stack@ =~= g0.skip(i + 1).reverse());
        let ghost before = out@;
        let c = QueryAst::Regex(r);
        proof { lemma_asts_view_push(before, c); }
        out.push(c);
        assert(regex_views(g0.take(i + 1)).map_values(|r: RegexQueryView| QueryAstView::Regex(r))
            =~= regex_views(g0.take(i as int)).map_values(
            |r: RegexQueryView| QueryAstView::Regex(r),
        ).push(QueryAstView::Regex(r@)));
        i = i + 1;
    }
    assert(g0.take(n as int) == g0);
}

/// Whether the `should` clauses of a boolean query form a union: at most one
/// of them is required to match.
pub open spec fn should_is_union(minimum_should_match: Option<usize>) -> bool {
    match minimum_should_match {
        Some(m) => m <= 1,
        None => true,
    }
}

/// A query once its regex alternatives are merged: in each boolean query,
/// the `should` clauses (when they form a union) and the `must_not` clauses
/// are merged by field, after their own sub-queries are; every other node
/// keeps its place.
pub open spec fn merge_regexes_spec(
    q: QueryAstView,
    ctx: Seq<(RegexQueryView, Option<Seq<char>>)>,
) -> QueryAstView
    decreases q,
{
    match q {
        QueryAstView::Bool(b) => QueryAstView::Bool(
            BoolQueryView {
                must: merge_regexes_all(b.must, ctx),
                must_not: merged_union(merge_regexes_all(b.must_not, ctx), ctx),
                should: if should_is_union(b.minimum_should_match) {
                    merged_union(merge_regexes_all(b.should, ctx), ctx)
                } else {
                    merge_regexes_all(b.should, ctx)
                },
                filter: merge_regexes_all(b.filter, ctx),
                minimum_should_match: b.minimum_should_match,
            },
        ),
        QueryAstView::Boost { underlying, boost } => QueryAstView::Boost {
            underlying: Box::new(merge_regexes_spec(*underlying, ctx)),
            boost,
        },
        other => other,
    }
}

/// `merge_regexes_spec` applied to each query, in order.
pub open spec fn merge_regexes_all(
    s: Seq<QueryAstView>,
    ctx: Seq<(RegexQueryView, Option<Seq<char>>)>,
) -> Seq<QueryAstView>
    decreases s,
{
    if s.len() == 0 {
        s
    } else {
        merge_regexes_all(s.drop_last(), ctx).push(merge_regexes_spec(s.last(), ctx))
    }
}

/// Merges regex alternatives by field within boolean unions.
struct RegexMerger<'a> {
    context: &'a BuildTantivyAstContext,
}

impl<'a> RegexMerger<'a> {
    /// The union pattern of a group of regex queries on one field.
    fn union_regex(&self, clauses: &Vec<RegexQuery>) -> (r: Option<String>)
        ensures
            option_string_view(r) == union_pattern(regex_views(clauses@), self.context@),
    {
        let ghost group = regex_views(clauses@);
        let ghost ctx = self.context@;
        if clauses.len() < 2 {
            return None;
        }
        let mut alternatives: Vec<ParsedRegex> = Vec::new();
        let mut i: usize = 0;
        while i < clauses.len()
            invariant
                0 <= i <= clauses.len(),
                group == regex_views(clauses@),
                ctx == self.context@,
                alternatives@.len() == i,
                alternatives@.map_values(|p: ParsedRegex| p@) == group.take(i as int).map_values(
                    |q: RegexQueryView| resolved_pattern(ctx, q),
                ),
                forall|k: int|
                    0 <= k < i ==> #[trigger] resolve_spec(ctx, group[k]) is Some && regex_parses(
                        resolved_pattern(ctx, group[k]),
                    ),
            decreases clauses.len() - i,
        {
            assert(group[i as int] == clauses@[i as int]@);
            let resolved = match self.context.resolve(&clauses[i]) {
                Some(resolved) => resolved,
                None => {
                    assert(!(resolve_spec(ctx, group[i as int]) is Some));
                    return None;
                },
            };
            let ghost rv = resolved@;
            assert(resolved_pattern(ctx, group[i as int]) == rv);
            let parsed = match parse_regex(resolved) {
                Some(parsed) => parsed,
                None => {
                    assert(!regex_parses(resolved_pattern(ctx, group[i as int])));
                    return None;
                },
            };
            let ghost before = alternatives@;
            alternatives.push(parsed);
            proof {
                let f = |p: ParsedRegex| p@;
                let g = |q: RegexQueryView| resolved_pattern(ctx, q);
                let a = alternatives@.map_values(f);
                let b = group.take(i + 1).map_values(g);
                let a0 = before.map_values(f);
                let b0 = group.take(i as int).map_values(g);
                assert(a0 == b0);
                assert(alternatives@ == before.push(parsed));
                assert(parsed@ == rv);
                assert(before.len() == i);
                assert(a.len() == i + 1);
                assert(b.len() == i + 1);
                assert forall|k: int| 0 <= k < i + 1 implies a[k] == b[k] by {
                    assert(a[k] == f(alternatives@[k]));
                    if k < i {
                        assert(alternatives@[k] == before[k]);
                        assert(a[k] == a0[k]);
                        assert(b[k] == b0[k]);
                    } else {
                        assert(a[k] == parsed@);
                        assert(b[k] == g(group[k]));
                    }
                }
                assert(a =~= b);
            }
            i = i + 1;
        }
        assert(group.take(clauses.len() as int) == group);
        let text = alternation_to_string(alternatives);
        let mut regex = String::new();
        push_char(&mut regex, '(');
        push_char(&mut regex, '?');
        push_char(&mut regex, '-');
        push_char(&mut regex, 'i');
        push_char(&mut regex, ')');
        regex.append(text.as_str());
        Some(regex)
    }

    /// Merges, by field, the regex queries of a union of clauses.
    fn merge_union(&self, clauses: &mut Vec<QueryAst>)
        ensures
            asts_view(final(clauses)@) == merged_union(asts_view(old(clauses)@), self.context@),
    {
        proof { lemma_asts_view_len(clauses@); }
        if clauses.len() < 2 {
            return;
        }
        let ghost s0 = asts_view(clauses@);
        let ghost ctx = self.context@;
        let mut taken: Vec<QueryAst> = Vec::new();
        std::mem::swap(clauses, &mut taken);
        let (mut others, regexes) = partition_clauses(taken);
        let ghost rs = regex_views(regexes@);
        let fields = sorted_distinct_fields(&regexes);
        let ghost fsv = string_views(fields@);
        assert(fsv.take(0) =~= Seq::<Seq<char>>::empty());
        assert(asts_view(others@) == non_regex_clauses(s0) + field_outcomes(rs, fsv.take(0), ctx));
        let mut j: usize = 0;
        while j < fields.len()
            invariant
                0 <= j <= fields.len(),
                rs == regex_views(regexes@),
                fsv == string_views(fields@),
                fsv == sorted_fields(rs),
                ctx == self.context@,
                asts_view(others@) == non_regex_clauses(s0) + field_outcomes(
                    rs,
                    fsv.take(j as int),
                    ctx,
                ),
            decreases fields.len() - j,
        {
            let ghost f = fsv[j as int];
            let group = field_group_of(&regexes, &fields[j]);
            let ghost gv = regex_views(group@);
            assert(gv == field_group(rs, f));
            proof {
                lemma_field_group_members(rs, f);
                assert(fsv.to_set().contains(f));
            }
            let ghost before = asts_view(others@);
            match self.union_regex(&group) {
                Some(regex) => {
                    let lenient = all_lenient_exec(&group);
                    let mut merged = RegexQuery::new(fields[j].clone(), regex);
                    merged.lenient = lenient;
                    let c = QueryAst::Regex(merged);
                    proof {
                        lemma_asts_view_push(others@, c);
                        assert(gv[0].field == f);
                    }
                    others.push(c);
                    assert(asts_view(others@) == before + group_outcome(gv, ctx));
                },
                None => {
                    push_regex_clauses(&mut others, group);
                },
            }
            assert(fsv.take(j + 1).drop_last() == fsv.take(j as int));
            assert(fsv.take(j + 1).last() == f);
            j = j + 1;
        }
        assert(fsv.take(fields.len() as int) == fsv);
        *clauses = others;
    }

    fn transform(&self, query_ast: QueryAst) -> (r: QueryAst)
        ensures
            r@ == merge_regexes_spec(query_ast@, self.context@),
        decreases query_ast,
    {
        match query_ast {
            QueryAst::Bool(bool_query) => QueryAst::Bool(self.transform_bool(bool_query)),
            QueryAst::Boost { underlying, boost } => {
                let transformed = self.transform(*underlying);
                QueryAst::Boost { underlying: Box::new(transformed), boost }
            },
            other => other,
        }
    }

    fn transform_bool(&self, query: BoolQuery) -> (r: BoolQuery)
        ensures
            ast_view(QueryAst::Bool(r)) == merge_regexes_spec(
                ast_view(QueryAst::Bool(query)),
                self.context@,
            ),
        decreases query,
    {
        let BoolQuery { must, must_not, should, filter, minimum_should_match } = query;
        let must = self.transform_all(must);
        let mut should = self.transform_all(should);
        // Requiring several should clauses to match is not a union.
        let should_union = match minimum_should_match {
            Some(m) => m <= 1,
            None => true,
        };
        if should_union {
            self.merge_union(&mut should);
        }
        // Several exclusions mean NOT(union), whatever minimum_should_match is.
        let mut must_not = self.transform_all(must_not);
        self.merge_union(&mut must_not);
        let filter = self.transform_all(filter);
        BoolQuery { must, must_not, should, filter, minimum_should_match }
    }

    fn transform_all(&self, clauses: Vec<QueryAst>) -> (r: Vec<QueryAst>)
        ensures
            asts_view(r@) == merge_regexes_all(asts_view(clauses@), self.context@),
        decreases clauses,
    {
        let ghost v0 = clauses@;
        let ghost ctx = self.context@;
        let n = clauses.len();
        assert(decreases_to!(clauses => v0));
        let mut stack = reversed(clauses);
        let mut out: Vec<QueryAst> = Vec::new();
        let mut i: usize = 0;
        assert(v0.take(0) =~= Seq::<QueryAst>::empty());
        while i < n
            invariant
                n == v0.len(),
                0 <= i <= n,
                ctx == self.context@,
                stack@ == v0.skip(i as int).reverse(),
                asts_view(out@) == merge_regexes_all(asts_view(v0.take(i as int)), ctx),
                decreases_to!(clauses => v0),
            decreases n - i,
        {
            assert(stack@.len() == n - i);
            assert(stack@.last() == v0[i as int]);
            let c = stack.pop().unwrap();
            assert(stack@ =~= v0.skip(i + 1).reverse());
            assert(decreases_to!(v0 => v0[i as int]));
            let t = self.transform(c);
            proof {
                lemma_asts_view_push(out@, t);
                assert(v0.take(i + 1) == v0.take(i as int).push(c));
                lemma_asts_view_push(v0.take(i as int), c);
                let x = asts_view(v0.take(i as int));
                assert(x.push(ast_view(c)).drop_last() == x);
            }
            out.push(t);
            i = i + 1;
        }
        assert(v0.take(n as int) == v0);
        out
    }
}

/// The regex queries of a query, in pre-order: the ones that a context for
/// merging needs resolutions for.
pub open spec fn ast_regex_queries(q: QueryAstView) -> Seq<RegexQueryView>
    decreases q,
{
    match q {
        QueryAstView::Bool(b) => asts_regex_queries(b.must) + asts_regex_queries(b.must_not)
            + asts_regex_queries(b.should) + asts_regex_queries(b.filter),
        QueryAstView::Regex(r) => seq![r],
        QueryAstView::Boost { underlying, boost } => ast_regex_queries(*underlying),
        _ => Seq::empty(),
    }
}

pub open spec fn asts_regex_queries(s: Seq<QueryAstView>) -> Seq<RegexQueryView>
    decreases s,
{
    if s.len() == 0 {
        Seq::empty()
    } else {
        asts_regex_queries(s.drop_last()) + ast_regex_queries(s.last())
    }
}

/// Appends the regex queries of `query_ast`, in pre-order.
fn push_regex_queries(query_ast: &QueryAst, out: &mut Vec<RegexQuery>)
    ensures
        regex_views(final(out)@) == regex_views(old(out)@) + ast_regex_queries(query_ast@),
    decreases query_ast,
{
    match query_ast {
        QueryAst::Bool(b) => {
            push_all_regex_queries(&b.must, out);
            push_all_regex_queries(&b.must_not, out);
            push_all_regex_queries(&b.should, out);
            push_all_regex_queries(&b.filter, out);
            assert(regex_views(out@) =~= regex_views(old(out)@) + ast_regex_queries(query_ast@));
        },
        QueryAst::Regex(r) => {
            let ghost before = out@;
            out.push(r.clone());
            assert(regex_views(out@) =~= regex_views(before) + seq![r@]);
        },
        QueryAst::Boost { underlying, boost: _ } => {
            let u: &QueryAst = underlying;
            push_regex_queries(u, out);
        },
        _ => {
            assert(regex_views(out@) =~= regex_views(old(out)@) + ast_regex_queries(query_ast@));
        },
    }
}

fn push_all_regex_queries(clauses: &Vec<QueryAst>, out: &mut Vec<RegexQuery>)
    ensures
        regex_views(final(out)@) == regex_views(old(out)@) + asts_regex_queries(
            asts_view(clauses@),
        ),
    decreases clauses,
{
    let ghost start = regex_views(out@);
    let ghost sv = asts_view(clauses@);
    proof { lemma_asts_view_len(clauses@); }
    let mut i: usize = 0;
    assert(sv.take(0) =~= Seq::<QueryAstView>::empty());
    assert(start + asts_regex_queries(sv.take(0)) =~= start);
    while i < clauses.len()
        invariant
            0 <= i <= clauses.len(),
            sv == asts_view(clauses@),
            sv.len() == clauses.len(),
            regex_views(out@) == start + asts_regex_queries(sv.take(i as int)),
            decreases_to!(clauses => clauses@),
        decreases clauses.len() - i,
    {
        assert(decreases_to!(clauses@ => clauses@[i as int]));
        push_regex_queries(&clauses[i], out);
        proof {
            lemma_asts_view_index(clauses@, i as int);
            assert(sv.take(i + 1).drop_last() == sv.take(i as int));
            assert(sv.take(i + 1).last() == sv[i as int]);
        }
        i = i + 1;
    }
    assert(sv.take(clauses.len() as int) == sv);
}

/// The regex queries of a query, in pre-order, each as often as it occurs.
pub fn regex_queries(query_ast: &QueryAst) -> (r: Vec<RegexQuery>)
    ensures
        regex_views(r@) == ast_regex_queries(query_ast@),
{
    let mut out: Vec<RegexQuery> = Vec::new();
    push_regex_queries(query_ast, &mut out);
    assert(regex_views(out@) =~= ast_regex_queries(query_ast@));
    out
}

/// Merges regex alternatives by field within boolean unions.
///
/// Only the resolution recorded in the context and the parsing of the
/// resolved patterns decide whether a group is merged; compiling the merged
/// patterns is left to the query builder. Clauses may be reordered: the
/// merged field groups come last, in increasing field order, which keeps the
/// result deterministic.
///
/// Merging preserves which documents match, but scores may change: a union
/// automaton does not sum the scores of overlapping alternatives.
pub fn merge_regexes(query_ast: QueryAst, context: &BuildTantivyAstContext) -> (r: QueryAst)
    ensures
        r@ == merge_regexes_spec(query_ast@, context@),
{
    let merger = RegexMerger { context };
    merger.transform(query_ast)
}

} // verus!

verus! {

/// The regex queries that a group becomes: their union, or the group itself.
pub open spec fn outcome_queries(
    group: Seq<RegexQueryView>,
    ctx: Seq<(RegexQueryView, Option<Seq<char>>)>,
) -> Seq<RegexQueryView> {
    match union_pattern(group, ctx) {
        Some(p) => seq![
            RegexQueryView {
                field: group[0].field,
                regex: p,
                lenient: all_lenient(group),
                normalize_literals: false,
            },
        ],
        None => group,
    }
}

/// The outcome queries of the groups of the fields `fs`, one after the other.
pub open spec fn all_outcome_queries(
    rs: Seq<RegexQueryView>,
    fs: Seq<Seq<char>>,
    ctx: Seq<(RegexQueryView, Option<Seq<char>>)>,
) -> Seq<RegexQueryView>
    decreases fs.len(),
{
    if fs.len() == 0 {
        Seq::empty()
    } else {
        all_outcome_queries(rs, fs.drop_last(), ctx) + outcome_queries(
            field_group(rs, fs.last()),
            ctx,
        )
    }
}

pub open spec fn as_clauses(rs: Seq<RegexQueryView>) -> Seq<QueryAstView> {
    rs.map_values(|r: RegexQueryView| QueryAstView::Regex(r))
}

proof fn lemma_group_outcome_as_clauses(
    group: Seq<RegexQueryView>,
    ctx: Seq<(RegexQueryView, Option<Seq<char>>)>,
)
    ensures
        group_outcome(group, ctx) == as_clauses(outcome_queries(group, ctx)),
{
    assert(group_outcome(group, ctx) =~= as_clauses(outcome_queries(group, ctx)));
}

proof fn lemma_non_regex_concat(a: Seq<QueryAstView>, b: Seq<QueryAstView>)
    ensures
        non_regex_clauses(a + b) == non_regex_clauses(a) + non_regex_clauses(b),
        regex_clauses(a + b) == regex_clauses(a) + regex_clauses(b),
    decreases b.len(),
{
    if b.len() == 0 {
        assert(a + b == a);
    } else {
        lemma_non_regex_concat(a, b.drop_last());
        assert((a + b).drop_last() == a + b.drop_last());
        assert((a + b).last() == b.last());
    }
}

proof fn lemma_field_group_concat(a: Seq<RegexQueryView>, b: Seq<RegexQueryView>, f: Seq<char>)
    ensures
        field_group(a + b, f) == field_group(a, f) + field_group(b, f),
    decreases b.len(),
{
    if b.len() == 0 {
        assert(a + b == a);
    } else {
        lemma_field_group_concat(a, b.drop_last(), f);
        assert((a + b).drop_last() == a + b.drop_last());
        assert((a + b).last() == b.last());
    }
}

proof fn lemma_as_clauses(rs: Seq<RegexQueryView>)
    ensures
        non_regex_clauses(as_clauses(rs)) == Seq::<QueryAstView>::empty(),
        regex_clauses(as_clauses(rs)) == rs,
    decreases rs.len(),
{
    if rs.len() > 0 {
        lemma_as_clauses(rs.drop_last());
        assert(as_clauses(rs).drop_last() == as_clauses(rs.drop_last()));
        assert(rs.drop_last().push(rs.last()) == rs);
    }
}

proof fn lemma_non_regex_clauses_idempotent(s: Seq<QueryAstView>)
    ensures
        non_regex_clauses(non_regex_clauses(s)) == non_regex_clauses(s),
        regex_clauses(non_regex_clauses(s)) == Seq::<RegexQueryView>::empty(),
        forall|i: int|
            0 <= i < non_regex_clauses(s).len() ==> !(#[trigger] non_regex_clauses(s)[i] is Regex),
    decreases s.len(),
{
    if s.len() > 0 {
        lemma_non_regex_clauses_idempotent(s.drop_last());
        let n = non_regex_clauses(s.drop_last());
        if !(s.last() is Regex) {
            assert(n.push(s.last()).drop_last() == n);
        }
    }
}

proof fn lemma_field_outcomes_as_clauses(
    rs: Seq<RegexQueryView>,
    fs: Seq<Seq<char>>,
    ctx: Seq<(RegexQueryView, Option<Seq<char>>)>,
)
    ensures
        field_outcomes(rs, fs, ctx) == as_clauses(all_outcome_queries(rs, fs, ctx)),
    decreases fs.len(),
{
    if fs.len() > 0 {
        lemma_field_outcomes_as_clauses(rs, fs.drop_last(), ctx);
        lemma_group_outcome_as_clauses(field_group(rs, fs.last()), ctx);
        assert(as_clauses(all_outcome_queries(rs, fs, ctx)) =~= as_clauses(
            all_outcome_queries(rs, fs.drop_last(), ctx),
        ) + as_clauses(outcome_queries(field_group(rs, fs.last()), ctx)));
    }
}

/// Every member of `x` is on field `f`.
pub open spec fn all_on_field(x: Seq<RegexQueryView>, f: Seq<char>) -> bool {
    forall|i: int| 0 <= i < x.len() ==> (#[trigger] x[i]).field == f
}

proof fn lemma_field_group_of_uniform(x: Seq<RegexQueryView>, f: Seq<char>, g: Seq<char>)
    requires
        all_on_field(x, f),
    ensures
        f == g ==> field_group(x, g) == x,
        f != g ==> field_group(x, g) == Seq::<RegexQueryView>::empty(),
    decreases x.len(),
{
    if x.len() > 0 {
        lemma_field_group_of_uniform(x.drop_last(), f, g);
        assert(x.drop_last().push(x.last()) == x);
    }
}

proof fn lemma_outcome_queries_fields(
    group: Seq<RegexQueryView>,
    f: Seq<char>,
    ctx: Seq<(RegexQueryView, Option<Seq<char>>)>,
)
    requires
        all_on_field(group, f),
        group.len() > 0,
    ensures
        all_on_field(outcome_queries(group, ctx), f),
        outcome_queries(group, ctx).len() > 0,
{
}

proof fn lemma_field_group_all_outcomes(
    rs: Seq<RegexQueryView>,
    fs: Seq<Seq<char>>,
    f: Seq<char>,
    ctx: Seq<(RegexQueryView, Option<Seq<char>>)>,
)
    requires
        strictly_sorted(fs),
        forall|i: int| 0 <= i < fs.len() ==> regex_fields(rs).contains(#[trigger] fs[i]),
    ensures
        fs.contains(f) ==> field_group(all_outcome_queries(rs, fs, ctx), f) == outcome_queries(
            field_group(rs, f),
            ctx,
        ),
        !fs.contains(f) ==> field_group(all_outcome_queries(rs, fs, ctx), f)
            == Seq::<RegexQueryView>::empty(),
    decreases fs.len(),
{
    if fs.len() == 0 {
    } else {
        let last = fs.last();
        let init = fs.drop_last();
        assert forall|i: int, j: int| 0 <= i < j < init.len() implies lex_lt(init[i], init[j]) by {
            assert(init[i] == fs[i] && init[j] == fs[j]);
        }
        assert forall|i: int| 0 <= i < init.len() implies regex_fields(rs).contains(
            #[trigger] init[i],
        ) by {
            assert(init[i] == fs[i]);
        }
        lemma_field_group_all_outcomes(rs, init, f, ctx);
        let g = field_group(rs, last);
        lemma_field_group_members(rs, last);
        assert(regex_fields(rs).contains(fs[fs.len() - 1]));
        lemma_outcome_queries_fields(g, last, ctx);
        lemma_field_group_of_uniform(outcome_queries(g, ctx), last, f);
        lemma_field_group_concat(
            all_outcome_queries(rs, init, ctx),
            outcome_queries(g, ctx),
            f,
        );
        if f == last {
            // `last` is not among the earlier fields.
            if init.contains(f) {
                let k = choose|k: int| 0 <= k < init.len() && init[k] == f;
                assert(lex_lt(fs[k], fs[fs.len() - 1]));
                lemma_lex_lt_irreflexive(f);
            }
            assert(fs.contains(f)) by {
                assert(fs[fs.len() - 1] == f);
            }
            assert(Seq::<RegexQueryView>::empty() + outcome_queries(g, ctx) == outcome_queries(
                g,
                ctx,
            ));
        } else {
            if fs.contains(f) {
                let k = choose|k: int| 0 <= k < fs.len() && fs[k] == f;
                assert(init[k] == f);
            }
            if init.contains(f) {
                let k = choose|k: int| 0 <= k < init.len() && init[k] == f;
                assert(fs[k] == f);
            }
            assert(field_group(all_outcome_queries(rs, init, ctx), f) + Seq::<
                RegexQueryView,
            >::empty() == field_group(all_outcome_queries(rs, init, ctx), f));
        }
    }
}

proof fn lemma_all_outcome_fields(
    rs: Seq<RegexQueryView>,
    fs: Seq<Seq<char>>,
    ctx: Seq<(RegexQueryView, Option<Seq<char>>)>,
)
    requires
        forall|i: int| 0 <= i < fs.len() ==> regex_fields(rs).contains(#[trigger] fs[i]),
    ensures
        regex_fields(all_outcome_queries(rs, fs, ctx)) == fs.to_set(),
    decreases fs.len(),
{
    let x = all_outcome_queries(rs, fs, ctx);
    if fs.len() == 0 {
        assert(regex_fields(x) =~= fs.to_set());
    } else {
        let init = fs.drop_last();
        let last = fs.last();
        assert forall|i: int| 0 <= i < init.len() implies regex_fields(rs).contains(
            #[trigger] init[i],
        ) by {
            assert(init[i] == fs[i]);
        }
        lemma_all_outcome_fields(rs, init, ctx);
        let g = field_group(rs, last);
        lemma_field_group_members(rs, last);
        assert(regex_fields(rs).contains(fs[fs.len() - 1]));
        lemma_outcome_queries_fields(g, last, ctx);
        let a = all_outcome_queries(rs, init, ctx);
        let o = outcome_queries(g, ctx);
        assert(x == a + o);
        assert forall|f: Seq<char>| regex_fields(x).contains(f) <==> fs.to_set().contains(f) by {
            if regex_fields(x).contains(f) {
                let i = choose|i: int| 0 <= i < x.len() && x[i].field == f;
                if i < a.len() {
                    assert(a[i].field == f);
                    assert(regex_fields(a).contains(f));
                    let k = choose|k: int| 0 <= k < init.len() && init[k] == f;
                    assert(fs[k] == f);
                } else {
                    assert(o[i - a.len()].field == f);
                    assert(fs[fs.len() - 1] == f);
                }
            }
            if fs.to_set().contains(f) {
                let k = choose|k: int| 0 <= k < fs.len() && fs[k] == f;
                if k < init.len() {
                    assert(init[k] == f);
                    assert(init.to_set().contains(f));
                    let i = choose|i: int| 0 <= i < a.len() && a[i].field == f;
                    assert(x[i] == a[i]);
                } else {
                    assert(x[a.len() as int] == o[0]);
                }
            }
        }
        assert(regex_fields(x) =~= fs.to_set());
    }
}

/// A group that is merged merges no further; one that is kept stays kept.
proof fn lemma_group_outcome_stable(
    group: Seq<RegexQueryView>,
    ctx: Seq<(RegexQueryView, Option<Seq<char>>)>,
)
    ensures
        group_outcome(outcome_queries(group, ctx), ctx) == group_outcome(group, ctx),
{
    lemma_group_outcome_as_clauses(group, ctx);
    lemma_group_outcome_as_clauses(outcome_queries(group, ctx), ctx);
}

proof fn lemma_field_outcomes_congruent(
    rs: Seq<RegexQueryView>,
    rs2: Seq<RegexQueryView>,
    fs: Seq<Seq<char>>,
    ctx: Seq<(RegexQueryView, Option<Seq<char>>)>,
)
    requires
        forall|i: int|
            0 <= i < fs.len() ==> group_outcome(field_group(rs2, #[trigger] fs[i]), ctx)
                == group_outcome(field_group(rs, fs[i]), ctx),
    ensures
        field_outcomes(rs2, fs, ctx) == field_outcomes(rs, fs, ctx),
    decreases fs.len(),
{
    if fs.len() > 0 {
        let init = fs.drop_last();
        assert forall|i: int| 0 <= i < init.len() implies group_outcome(
            field_group(rs2, #[trigger] init[i]),
            ctx,
        ) == group_outcome(field_group(rs, init[i]), ctx) by {
            assert(init[i] == fs[i]);
        }
        lemma_field_outcomes_congruent(rs, rs2, init, ctx);
        assert(fs.last() == fs[fs.len() - 1]);
    }
}

/// Merging the regex queries of a union a second time changes nothing.
pub proof fn lemma_merged_union_idempotent(
    s: Seq<QueryAstView>,
    ctx: Seq<(RegexQueryView, Option<Seq<char>>)>,
)
    ensures
        merged_union(merged_union(s, ctx), ctx) == merged_union(s, ctx),
{
    if s.len() >= 2 {
        let rs = regex_clauses(s);
        let fs = sorted_fields(rs);
        let n = non_regex_clauses(s);
        let f = field_outcomes(rs, fs, ctx);
        let m = n + f;
        assert(m == merged_union(s, ctx));
        if m.len() >= 2 {
            // The sorted fields exist.
            lemma_sorted_fields_exist(rs);
            assert(strictly_sorted(fs) && fs.to_set() == regex_fields(rs));
            assert forall|i: int| 0 <= i < fs.len() implies regex_fields(rs).contains(
                #[trigger] fs[i],
            ) by {
                assert(fs.to_set().contains(fs[i]));
            }
            let oq = all_outcome_queries(rs, fs, ctx);
            lemma_field_outcomes_as_clauses(rs, fs, ctx);
            lemma_as_clauses(oq);
            lemma_non_regex_concat(n, f);
            lemma_non_regex_clauses_idempotent(s);
            assert(non_regex_clauses(m) == n);
            assert(regex_clauses(m) == oq);
            lemma_all_outcome_fields(rs, fs, ctx);
            assert(regex_fields(oq) == regex_fields(rs));
            assert(sorted_fields(oq) == fs);
            assert forall|i: int| 0 <= i < fs.len() implies group_outcome(
                field_group(oq, #[trigger] fs[i]),
                ctx,
            ) == group_outcome(field_group(rs, fs[i]), ctx) by {
                lemma_field_group_all_outcomes(rs, fs, fs[i], ctx);
                assert(fs.contains(fs[i]));
                lemma_group_outcome_stable(field_group(rs, fs[i]), ctx);
            }
            lemma_field_outcomes_congruent(rs, oq, fs, ctx);
        }
    }
}

/// `fs` with `f` inserted in its place, unless it is there.
proof fn lemma_sorted_insert(fs: Seq<Seq<char>>, f: Seq<char>) -> (r: Seq<Seq<char>>)
    requires
        strictly_sorted(fs),
    ensures
        strictly_sorted(r),
        r.to_set() == fs.to_set().insert(f),
    decreases fs.len(),
{
    if fs.len() == 0 {
        let r = seq![f];
        assert(r.to_set() =~= fs.to_set().insert(f)) by {
            assert(r[0] == f);
        }
        r
    } else if fs[0] == f {
        assert(fs.to_set().contains(f));
        assert(fs.to_set().insert(f) =~= fs.to_set());
        fs
    } else if lex_lt(f, fs[0]) {
        let r = seq![f] + fs;
        assert forall|i: int, j: int| 0 <= i < j < r.len() implies lex_lt(r[i], r[j]) by {
            if i == 0 {
                if j > 1 {
                    lemma_lex_lt_transitive(f, fs[0], fs[j - 1]);
                }
            } else {
                assert(r[i] == fs[i - 1] && r[j] == fs[j - 1]);
            }
        }
        assert forall|x: Seq<char>| r.to_set().contains(x) <==> fs.to_set().insert(f).contains(x) by {
            if r.to_set().contains(x) {
                let k = choose|k: int| 0 <= k < r.len() && r[k] == x;
                if k > 0 {
                    assert(fs[k - 1] == x);
                }
            }
            if fs.to_set().contains(x) {
                let k = choose|k: int| 0 <= k < fs.len() && fs[k] == x;
                assert(r[k + 1] == x);
            }
            if x == f {
                assert(r[0] == x);
            }
        }
        assert(r.to_set() =~= fs.to_set().insert(f));
        r
    } else {
        lemma_lex_lt_total(f, fs[0]);
        let tail = fs.drop_first();
        assert forall|i: int, j: int| 0 <= i < j < tail.len() implies lex_lt(tail[i], tail[j]) by {
            assert(tail[i] == fs[i + 1] && tail[j] == fs[j + 1]);
        }
        let t = lemma_sorted_insert(tail, f);
        let r = seq![fs[0]] + t;
        assert forall|i: int, j: int| 0 <= i < j < r.len() implies lex_lt(r[i], r[j]) by {
            if i == 0 {
                assert(r[j] == t[j - 1]);
                assert(t.to_set().contains(t[j - 1]));
                if t[j - 1] != f {
                    assert(tail.to_set().contains(t[j - 1]));
                    let k = choose|k: int| 0 <= k < tail.len() && tail[k] == t[j - 1];
                    assert(fs[k + 1] == t[j - 1]);
                }
            } else {
                assert(r[i] == t[i - 1] && r[j] == t[j - 1]);
            }
        }
        assert forall|x: Seq<char>| r.to_set().contains(x) <==> fs.to_set().insert(f).contains(x) by {
            if r.to_set().contains(x) {
                let k = choose|k: int| 0 <= k < r.len() && r[k] == x;
                if k > 0 {
                    assert(t[k - 1] == x);
                    assert(t.to_set().contains(x));
                    if x != f {
                        assert(tail.to_set().contains(x));
                        let m = choose|m: int| 0 <= m < tail.len() && tail[m] == x;
                        assert(fs[m + 1] == x);
                    }
                } else {
                    assert(fs[0] == x);
                }
            }
            if fs.to_set().contains(x) {
                let k = choose|k: int| 0 <= k < fs.len() && fs[k] == x;
                if k == 0 {
                    assert(r[0] == x);
                } else {
                    assert(tail[k - 1] == x);
                    assert(tail.to_set().contains(x));
                    assert(t.to_set().contains(x));
                    let m = choose|m: int| 0 <= m < t.len() && t[m] == x;
                    assert(r[m + 1] == x);
                }
            }
            if x == f {
                assert(t.to_set().contains(x));
                let m = choose|m: int| 0 <= m < t.len() && t[m] == x;
                assert(r[m + 1] == x);
            }
        }
        assert(r.to_set() =~= fs.to_set().insert(f));
        r
    }
}

proof fn lemma_sorted_fields_exist(rs: Seq<RegexQueryView>)
    ensures
        strictly_sorted(sorted_fields(rs)),
        sorted_fields(rs).to_set() == regex_fields(rs),
    decreases rs.len(),
{
    if rs.len() == 0 {
        let w = Seq::<Seq<char>>::empty();
        assert(w.to_set() =~= regex_fields(rs));
        assert(strictly_sorted(w) && w.to_set() == regex_fields(rs));
    } else {
        let init = rs.drop_last();
        lemma_sorted_fields_exist(init);
        let fi = rs.last().field;
        let w = lemma_sorted_insert(sorted_fields(init), fi);
        assert forall|f: Seq<char>| regex_fields(rs).contains(f) <==> regex_fields(init).insert(
            fi,
        ).contains(f) by {
            if regex_fields(rs).contains(f) {
                let k = choose|k: int| 0 <= k < rs.len() && rs[k].field == f;
                if k < init.len() {
                    assert(init[k].field == f);
                }
            }
            if regex_fields(init).contains(f) {
                let k = choose|k: int| 0 <= k < init.len() && init[k].field == f;
                assert(rs[k].field == f);
            }
            if f == fi {
                assert(rs[rs.len() - 1].field == f);
            }
        }
        assert(regex_fields(rs) =~= regex_fields(init).insert(fi));
        assert(strictly_sorted(w) && w.to_set() == regex_fields(rs));
    }
}

proof fn lemma_merge_regexes_all_index(
    s: Seq<QueryAstView>,
    ctx: Seq<(RegexQueryView, Option<Seq<char>>)>,
)
    ensures
        merge_regexes_all(s, ctx).len() == s.len(),
        forall|i: int|
            0 <= i < s.len() ==> #[trigger] merge_regexes_all(s, ctx)[i] == merge_regexes_spec(
                s[i],
                ctx,
            ),
    decreases s.len(),
{
    if s.len() > 0 {
        lemma_merge_regexes_all_index(s.drop_last(), ctx);
        assert forall|i: int| 0 <= i < s.len() implies #[trigger] merge_regexes_all(s, ctx)[i]
            == merge_regexes_spec(s[i], ctx) by {
            if i < s.len() - 1 {
                assert(s.drop_last()[i] == s[i]);
            }
        }
    }
}

/// Queries that merging leaves alone, taken together, are left alone.
proof fn lemma_merge_regexes_all_fixed(
    s: Seq<QueryAstView>,
    ctx: Seq<(RegexQueryView, Option<Seq<char>>)>,
)
    requires
        forall|i: int| 0 <= i < s.len() ==> merge_regexes_spec(#[trigger] s[i], ctx) == s[i],
    ensures
        merge_regexes_all(s, ctx) == s,
{
    lemma_merge_regexes_all_index(s, ctx);
    assert(merge_regexes_all(s, ctx) =~= s);
}

proof fn lemma_non_regex_clauses_members(s: Seq<QueryAstView>)
    ensures
        forall|i: int|
            0 <= i < non_regex_clauses(s).len() ==> s.contains(#[trigger] non_regex_clauses(s)[i]),
    decreases s.len(),
{
    if s.len() > 0 {
        lemma_non_regex_clauses_members(s.drop_last());
        let n = non_regex_clauses(s.drop_last());
        assert forall|i: int| 0 <= i < non_regex_clauses(s).len() implies s.contains(
            #[trigger] non_regex_clauses(s)[i],
        ) by {
            if i < n.len() {
                assert(non_regex_clauses(s)[i] == n[i]);
                let k = choose|k: int| 0 <= k < s.drop_last().len() && s.drop_last()[k] == n[i];
                assert(s[k] == n[i]);
            } else {
                assert(non_regex_clauses(s)[i] == s[s.len() - 1]);
            }
        }
    }
}

/// Each clause of a merged union is a clause of the union or a regex query.
proof fn lemma_merged_union_members(
    s: Seq<QueryAstView>,
    ctx: Seq<(RegexQueryView, Option<Seq<char>>)>,
)
    ensures
        forall|i: int|
            0 <= i < merged_union(s, ctx).len() ==> s.contains(#[trigger] merged_union(s, ctx)[i])
                || merged_union(s, ctx)[i] is Regex,
{
    if s.len() >= 2 {
        let rs = regex_clauses(s);
        let fs = sorted_fields(rs);
        let n = non_regex_clauses(s);
        lemma_non_regex_clauses_members(s);
        lemma_field_outcomes_as_clauses(rs, fs, ctx);
        let o = field_outcomes(rs, fs, ctx);
        assert forall|i: int| 0 <= i < merged_union(s, ctx).len() implies s.contains(
            #[trigger] merged_union(s, ctx)[i],
        ) || merged_union(s, ctx)[i] is Regex by {
            if i < n.len() {
                assert(merged_union(s, ctx)[i] == n[i]);
            } else {
                assert(merged_union(s, ctx)[i] == o[i - n.len()]);
            }
        }
    } else {
        assert forall|i: int| 0 <= i < merged_union(s, ctx).len() implies s.contains(
            #[trigger] merged_union(s, ctx)[i],
        ) || merged_union(s, ctx)[i] is Regex by {
            assert(s[i] == merged_union(s, ctx)[i]);
        }
    }
}

/// Merging a union of queries that merging leaves alone yields queries that
/// merging leaves alone.
proof fn lemma_merged_union_fixed(
    x: Seq<QueryAstView>,
    ctx: Seq<(RegexQueryView, Option<Seq<char>>)>,
)
    requires
        forall|i: int| 0 <= i < x.len() ==> merge_regexes_spec(#[trigger] x[i], ctx) == x[i],
    ensures
        merge_regexes_all(merged_union(x, ctx), ctx) == merged_union(x, ctx),
{
    let y = merged_union(x, ctx);
    lemma_merged_union_members(x, ctx);
    assert forall|i: int| 0 <= i < y.len() implies merge_regexes_spec(#[trigger] y[i], ctx)
        == y[i] by {
        if x.contains(y[i]) {
            let k = choose|k: int| 0 <= k < x.len() && x[k] == y[i];
            assert(merge_regexes_spec(x[k], ctx) == x[k]);
        }
    }
    lemma_merge_regexes_all_fixed(y, ctx);
}

/// Merging regex alternatives a second time changes nothing.
pub proof fn lemma_merge_regexes_idempotent(
    q: QueryAstView,
    ctx: Seq<(RegexQueryView, Option<Seq<char>>)>,
)
    ensures
        merge_regexes_spec(merge_regexes_spec(q, ctx), ctx) == merge_regexes_spec(q, ctx),
    decreases q,
{
    match q {
        QueryAstView::Bool(b) => {
            assert forall|i: int| 0 <= i < b.must.len() implies merge_regexes_spec(
                merge_regexes_spec(#[trigger] b.must[i], ctx),
                ctx,
            ) == merge_regexes_spec(b.must[i], ctx) by {
                lemma_merge_regexes_idempotent(b.must[i], ctx);
            }
            assert forall|i: int| 0 <= i < b.must_not.len() implies merge_regexes_spec(
                merge_regexes_spec(#[trigger] b.must_not[i], ctx),
                ctx,
            ) == merge_regexes_spec(b.must_not[i], ctx) by {
                lemma_merge_regexes_idempotent(b.must_not[i], ctx);
            }
            assert forall|i: int| 0 <= i < b.should.len() implies merge_regexes_spec(
                merge_regexes_spec(#[trigger] b.should[i], ctx),
                ctx,
            ) == merge_regexes_spec(b.should[i], ctx) by {
                lemma_merge_regexes_idempotent(b.should[i], ctx);
            }
            assert forall|i: int| 0 <= i < b.filter.len() implies merge_regexes_spec(
                merge_regexes_spec(#[trigger] b.filter[i], ctx),
                ctx,
            ) == merge_regexes_spec(b.filter[i], ctx) by {
                lemma_merge_regexes_idempotent(b.filter[i], ctx);
            }
            let must = merge_regexes_all(b.must, ctx);
            let must_not = merge_regexes_all(b.must_not, ctx);
            let should = merge_regexes_all(b.should, ctx);
            let filter = merge_regexes_all(b.filter, ctx);
            lemma_merge_regexes_all_index(b.must, ctx);
            lemma_merge_regexes_all_index(b.must_not, ctx);
            lemma_merge_regexes_all_index(b.should, ctx);
            lemma_merge_regexes_all_index(b.filter, ctx);
            lemma_merge_regexes_all_fixed(must, ctx);
            lemma_merge_regexes_all_fixed(filter, ctx);
            lemma_merge_regexes_all_fixed(should, ctx);
            lemma_merged_union_fixed(must_not, ctx);
            lemma_merged_union_idempotent(must_not, ctx);
            lemma_merged_union_fixed(should, ctx);
            lemma_merged_union_idempotent(should, ctx);
        },
        QueryAstView::Boost { underlying, boost } => {
            lemma_merge_regexes_idempotent(*underlying, ctx);
        },
        _ => {},
    }
}

/// Merging a union removes no clause: the clauses that are not regex queries
/// stay, in order, and regex queries remain on exactly the same fields.
pub proof fn lemma_merged_union_keeps_clauses(
    s: Seq<QueryAstView>,
    ctx: Seq<(RegexQueryView, Option<Seq<char>>)>,
)
    ensures
        non_regex_clauses(merged_union(s, ctx)) == non_regex_clauses(s),
        regex_fields(regex_clauses(merged_union(s, ctx))) == regex_fields(regex_clauses(s)),
{
    if s.len() >= 2 {
        let rs = regex_clauses(s);
        let fs = sorted_fields(rs);
        let n = non_regex_clauses(s);
        let f = field_outcomes(rs, fs, ctx);
        lemma_sorted_fields_exist(rs);
        assert forall|i: int| 0 <= i < fs.len() implies regex_fields(rs).contains(
            #[trigger] fs[i],
        ) by {
            assert(fs.to_set().contains(fs[i]));
        }
        let oq = all_outcome_queries(rs, fs, ctx);
        lemma_field_outcomes_as_clauses(rs, fs, ctx);
        lemma_as_clauses(oq);
        lemma_non_regex_concat(n, f);
        lemma_non_regex_clauses_idempotent(s);
        lemma_all_outcome_fields(rs, fs, ctx);
    }
}

proof fn lemma_field_group_in(rs: Seq<RegexQueryView>, f: Seq<char>)
    ensures
        field_group(rs, f).len() > 0 ==> regex_fields(rs).contains(f),
    decreases rs.len(),
{
    if rs.len() > 0 {
        lemma_field_group_in(rs.drop_last(), f);
        if field_group(rs, f).len() > 0 {
            if rs.last().field == f {
                assert(rs[rs.len() - 1].field == f);
            } else {
                let k = choose|k: int|
                    0 <= k < rs.drop_last().len() && rs.drop_last()[k].field == f;
                assert(rs[k].field == f);
            }
        }
    }
}

proof fn lemma_single_clause(s: Seq<QueryAstView>)
    requires
        s.len() == 1,
    ensures
        s[0] is Regex ==> regex_clauses(s) == seq![s[0]->Regex_0] && non_regex_clauses(s).len()
            == 0,
        !(s[0] is Regex) ==> regex_clauses(s).len() == 0 && non_regex_clauses(s) == seq![s[0]],
{
    let e = s.drop_last();
    assert(e.len() == 0);
    assert(regex_clauses(e) == Seq::<RegexQueryView>::empty());
    assert(non_regex_clauses(e) == e);
    assert(s.last() == s[0]);
    if let QueryAstView::Regex(q) = s[0] {
        assert(regex_clauses(s) == Seq::<RegexQueryView>::empty().push(q));
        assert(Seq::<RegexQueryView>::empty().push(q) =~= seq![q]);
    } else {
        assert(non_regex_clauses(s) == e.push(s[0]));
        assert(e.push(s[0]) =~= seq![s[0]]);
    }
}

proof fn lemma_single_field_group(q: RegexQueryView, f: Seq<char>)
    ensures
        q.field == f ==> field_group(seq![q], f) == seq![q],
        q.field != f ==> field_group(seq![q], f).len() == 0,
{
    let s = seq![q];
    assert(s.drop_last() =~= Seq::<RegexQueryView>::empty());
    assert(field_group(s.drop_last(), f).len() == 0);
    assert(s.last() == q);
    if q.field == f {
        assert(field_group(s, f) == field_group(s.drop_last(), f).push(q));
        assert(field_group(s.drop_last(), f) =~= Seq::<RegexQueryView>::empty());
        assert(Seq::<RegexQueryView>::empty().push(q) =~= seq![q]);
    }
}

/// Merging a union depends on its clauses only through the order of the
/// clauses that are not regex queries and the order of each field's regex
/// queries: a reordering that keeps those gives the same result.
pub proof fn lemma_merged_union_reorder(
    s1: Seq<QueryAstView>,
    s2: Seq<QueryAstView>,
    ctx: Seq<(RegexQueryView, Option<Seq<char>>)>,
)
    requires
        s1.len() == s2.len(),
        non_regex_clauses(s1) == non_regex_clauses(s2),
        forall|f: Seq<char>|
            #[trigger] field_group(regex_clauses(s1), f) == field_group(regex_clauses(s2), f),
    ensures
        merged_union(s1, ctx) == merged_union(s2, ctx),
{
    let r1 = regex_clauses(s1);
    let r2 = regex_clauses(s2);
    assert forall|f: Seq<char>| regex_fields(r1).contains(f) <==> regex_fields(r2).contains(f) by {
        lemma_field_group_members(r1, f);
        lemma_field_group_members(r2, f);
        lemma_field_group_in(r1, f);
        lemma_field_group_in(r2, f);
        assert(field_group(r1, f) == field_group(r2, f));
    }
    assert(regex_fields(r1) =~= regex_fields(r2));
    let fs = sorted_fields(r1);
    assert(sorted_fields(r2) == fs);
    assert forall|i: int| 0 <= i < fs.len() implies group_outcome(
        field_group(r2, #[trigger] fs[i]),
        ctx,
    ) == group_outcome(field_group(r1, fs[i]), ctx) by {
        assert(field_group(r1, fs[i]) == field_group(r2, fs[i]));
    }
    lemma_field_outcomes_congruent(r1, r2, fs, ctx);
    if s1.len() == 1 {
        lemma_single_clause(s1);
        lemma_single_clause(s2);
        if let QueryAstView::Regex(q1) = s1[0] {
            if let QueryAstView::Regex(q2) = s2[0] {
                lemma_single_field_group(q1, q1.field);
                lemma_single_field_group(q2, q1.field);
                assert(field_group(r1, q1.field) == field_group(r2, q1.field));
                assert(q1 == q2);
                assert(s1[0] == s2[0]);
            } else {
                assert(non_regex_clauses(s2).len() == 1);
            }
        } else if s2[0] is Regex {
            assert(non_regex_clauses(s1).len() == 1);
        } else {
            assert(non_regex_clauses(s1)[0] == non_regex_clauses(s2)[0]);
            assert(seq![s1[0]][0] == s1[0]);
            assert(seq![s2[0]][0] == s2[0]);
            assert(s1[0] == s2[0]);
        }
        assert(s1 =~= s2);
    } else if s1.len() == 0 {
        assert(s1 == s2);
    }
}

/// Reordering the `should` clauses of a boolean query that forms a union,
/// keeping the order of the clauses that are not regex queries and the order
/// of each field's regex queries, does not change what merging gives.
pub proof fn lemma_merge_regexes_should_reorder(
    b1: BoolQueryView,
    b2: BoolQueryView,
    ctx: Seq<(RegexQueryView, Option<Seq<char>>)>,
)
    requires
        b1.must == b2.must,
        b1.must_not == b2.must_not,
        b1.filter == b2.filter,
        b1.minimum_should_match == b2.minimum_should_match,
        should_is_union(b1.minimum_should_match),
        b1.should.len() == b2.should.len(),
        non_regex_clauses(b1.should) == non_regex_clauses(b2.should),
        forall|f: Seq<char>|
            #[trigger] field_group(regex_clauses(b1.should), f) == field_group(
                regex_clauses(b2.should),
                f,
            ),
    ensures
        merge_regexes_spec(QueryAstView::Bool(b1), ctx) == merge_regexes_spec(
            QueryAstView::Bool(b2),
            ctx,
        ),
{
    let m1 = merge_regexes_all(b1.should, ctx);
    let m2 = merge_regexes_all(b2.should, ctx);
    lemma_merge_regexes_all_index(b1.should, ctx);
    lemma_merge_regexes_all_index(b2.should, ctx);
    lemma_merge_regexes_all_clauses(b1.should, ctx);
    lemma_merge_regexes_all_clauses(b2.should, ctx);
    assert forall|f: Seq<char>| #[trigger] field_group(regex_clauses(m1), f) == field_group(
        regex_clauses(m2),
        f,
    ) by {
        assert(field_group(regex_clauses(b1.should), f) == field_group(
            regex_clauses(b2.should),
            f,
        ));
    }
    lemma_merged_union_reorder(m1, m2, ctx);
}

/// Merging the sub-queries of clauses leaves their regex queries alone and
/// merges the other clauses one by one.
proof fn lemma_merge_regexes_all_clauses(
    s: Seq<QueryAstView>,
    ctx: Seq<(RegexQueryView, Option<Seq<char>>)>,
)
    ensures
        regex_clauses(merge_regexes_all(s, ctx)) == regex_clauses(s),
        non_regex_clauses(merge_regexes_all(s, ctx)) == merge_regexes_all(
            non_regex_clauses(s),
            ctx,
        ),
    decreases s.len(),
{
    if s.len() > 0 {
        let init = s.drop_last();
        lemma_merge_regexes_all_clauses(init, ctx);
        let m = merge_regexes_all(s, ctx);
        assert(m.drop_last() == merge_regexes_all(init, ctx));
        assert(m.last() == merge_regexes_spec(s.last(), ctx));
        if s.last() is Regex {
        } else {
            let n = non_regex_clauses(init);
            assert(non_regex_clauses(s) == n.push(s.last()));
            assert(n.push(s.last()).drop_last() == n);
        }
    }
}


/// A clause that, when it is a regex query on field `f`, is lenient.
pub open spec fn lenient_if_on(c: QueryAstView, f: Seq<char>) -> bool {
    match c {
        QueryAstView::Regex(q) => q.field == f ==> q.lenient,
        _ => true,
    }
}

proof fn lemma_group_lenient(s: Seq<QueryAstView>, f: Seq<char>)
    ensures
        (forall|k: int|
            0 <= k < field_group(regex_clauses(s), f).len() ==> #[trigger] field_group(
                regex_clauses(s),
                f,
            )[k].lenient) <==> (forall|i: int| 0 <= i < s.len() ==> #[trigger] lenient_if_on(s[i], f)),
    decreases s.len(),
{
    if s.len() > 0 {
        let s0 = s.drop_last();
        lemma_group_lenient(s0, f);
        let g0 = field_group(regex_clauses(s0), f);
        let g = field_group(regex_clauses(s), f);
        let rs0 = regex_clauses(s0);
        let last_ok = lenient_if_on(s.last(), f);
        if let QueryAstView::Regex(q) = s.last() {
            let rs = regex_clauses(s);
            assert(rs == rs0.push(q));
            assert(rs.drop_last() == rs0);
            assert(rs.last() == q);
            if q.field == f {
                assert(g == g0.push(q));
            } else {
                assert(g == g0);
            }
        } else {
            assert(regex_clauses(s) == rs0);
        }
        let lhs = forall|k: int| 0 <= k < g.len() ==> #[trigger] g[k].lenient;
        let lhs0 = forall|k: int| 0 <= k < g0.len() ==> #[trigger] g0[k].lenient;
        assert(lhs <==> lhs0 && last_ok) by {
            if lhs {
                assert forall|k: int| 0 <= k < g0.len() implies #[trigger] g0[k].lenient by {
                    assert(g[k] == g0[k]);
                }
                if g.len() > g0.len() {
                    assert(g[g0.len() as int].lenient);
                }
            }
            if lhs0 && last_ok {
                assert forall|k: int| 0 <= k < g.len() implies #[trigger] g[k].lenient by {
                    if k < g0.len() {
                        assert(g[k] == g0[k]);
                    }
                }
            }
        }
        let rhs = forall|i: int| 0 <= i < s.len() ==> #[trigger] lenient_if_on(s[i], f);
        let rhs0 = forall|i: int| 0 <= i < s0.len() ==> #[trigger] lenient_if_on(s0[i], f);
        assert(rhs <==> rhs0 && last_ok) by {
            if rhs {
                assert forall|i: int| 0 <= i < s0.len() implies #[trigger] lenient_if_on(s0[i], f) by {
                    assert(s[i] == s0[i]);
                }
                assert(lenient_if_on(s[s.len() - 1], f));
            }
            if rhs0 && last_ok {
                assert forall|i: int| 0 <= i < s.len() implies #[trigger] lenient_if_on(s[i], f) by {
                    if i < s0.len() {
                        assert(s[i] == s0[i]);
                    }
                }
            }
        }
    }
}

/// When the regex queries of a union on field `f` are merged into one, the
/// merged union holds exactly one regex query on `f`: the union pattern, on
/// `f`, without literal normalization, and lenient exactly when every regex
/// query of the union on `f` is lenient.
pub proof fn lemma_merged_union_lenient(
    s: Seq<QueryAstView>,
    ctx: Seq<(RegexQueryView, Option<Seq<char>>)>,
    f: Seq<char>,
)
    requires
        s.len() >= 2,
        union_pattern(field_group(regex_clauses(s), f), ctx) is Some,
    ensures
        field_group(regex_clauses(merged_union(s, ctx)), f) == seq![
            (RegexQueryView {
                field: f,
                regex: union_pattern(field_group(regex_clauses(s), f), ctx)->Some_0,
                lenient: (forall|i: int| 0 <= i < s.len() ==> #[trigger] lenient_if_on(s[i], f)),
                normalize_literals: false,
            }),
        ],
{
    let rs = regex_clauses(s);
    let fs = sorted_fields(rs);
    let n = non_regex_clauses(s);
    let fo = field_outcomes(rs, fs, ctx);
    let m = n + fo;
    assert(m == merged_union(s, ctx));
    let g = field_group(rs, f);
    lemma_sorted_fields_exist(rs);
    assert forall|i: int| 0 <= i < fs.len() implies regex_fields(rs).contains(#[trigger] fs[i]) by {
        assert(fs.to_set().contains(fs[i]));
    }
    let oq = all_outcome_queries(rs, fs, ctx);
    lemma_field_outcomes_as_clauses(rs, fs, ctx);
    lemma_as_clauses(oq);
    lemma_non_regex_concat(n, fo);
    lemma_non_regex_clauses_idempotent(s);
    assert(regex_clauses(m) == oq);
    lemma_field_group_in(rs, f);
    assert(fs.to_set().contains(f));
    assert(fs.contains(f));
    lemma_field_group_all_outcomes(rs, fs, f, ctx);
    lemma_field_group_members(rs, f);
    assert(g[0].field == f);
    lemma_group_lenient(s, f);
}

} // verus!
