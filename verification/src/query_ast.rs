//! The query AST: boolean combinations of term and regex queries, with an
//! abstract view in which every string is a sequence of characters.

use vstd::prelude::*;

use crate::wildcard::{wildcard_regex, wildcard_to_regex};

verus! {

/// A boost factor: an `f32` that is not NaN, held as its IEEE-754 bits.
#[derive(Clone, Copy, Debug, PartialEq, Eq)]
pub struct NotNaNf32 {
    bits: u32,
}

/// The bit patterns of the NaN values of `f32`.
pub open spec fn is_nan_bits(bits: u32) -> bool {
    (bits & 0x7f80_0000u32) == 0x7f80_0000u32 && (bits & 0x007f_ffffu32) != 0
}

impl NotNaNf32 {
    pub closed spec fn spec_bits(self) -> u32 {
        self.bits
    }

    /// The boost whose `f32` has these bits, or `None` for a NaN.
    pub fn from_bits(bits: u32) -> (r: Option<NotNaNf32>)
        ensures
            r is Some <==> !is_nan_bits(bits),
            r matches Some(v) ==> v.spec_bits() == bits,
    {
        if (bits & 0x7f80_0000u32) == 0x7f80_0000u32 && (bits & 0x007f_ffffu32) != 0 {
            None
        } else {
            Some(NotNaNf32 { bits })
        }
    }

    /// The bits of the boost's `f32`.
    pub fn to_bits(&self) -> (r: u32)
        ensures
            r == self.spec_bits(),
    {
        self.bits
    }
}

/// Matches documents whose `field` holds the term `value`.
#[derive(Debug, PartialEq, Eq)]
pub struct TermQuery {
    pub field: String,
    pub value: String,
}

/// Matches documents whose `field` holds a term matched by `regex`.
#[derive(Debug, PartialEq, Eq)]
pub struct RegexQuery {
    pub field: String,
    pub regex: String,
    /// Tolerate a missing field instead of failing.
    pub lenient: bool,
    /// Run the literals of the regex through the field's normalizer.
    pub normalize_literals: bool,
}

/// A boolean combination of queries.
#[derive(Debug, PartialEq, Eq)]
pub struct BoolQuery {
    pub must: Vec<QueryAst>,
    pub must_not: Vec<QueryAst>,
    pub should: Vec<QueryAst>,
    pub filter: Vec<QueryAst>,
    pub minimum_should_match: Option<usize>,
}

#[derive(Debug, PartialEq, Eq)]
pub enum QueryAst {
    Bool(BoolQuery),
    Term(TermQuery),
    Regex(RegexQuery),
    MatchAll,
    MatchNone,
    Boost { underlying: Box<QueryAst>, boost: NotNaNf32 },
}

pub struct TermQueryView {
    pub field: Seq<char>,
    pub value: Seq<char>,
}

pub struct RegexQueryView {
    pub field: Seq<char>,
    pub regex: Seq<char>,
    pub lenient: bool,
    pub normalize_literals: bool,
}

pub struct BoolQueryView {
    pub must: Seq<QueryAstView>,
    pub must_not: Seq<QueryAstView>,
    pub should: Seq<QueryAstView>,
    pub filter: Seq<QueryAstView>,
    pub minimum_should_match: Option<usize>,
}

pub enum QueryAstView {
    Bool(BoolQueryView),
    Term(TermQueryView),
    Regex(RegexQueryView),
    MatchAll,
    MatchNone,
    Boost { underlying: Box<QueryAstView>, boost: u32 },
}

impl View for TermQuery {
    type V = TermQueryView;

    open spec fn view(&self) -> TermQueryView {
        TermQueryView { field: self.field@, value: self.value@ }
    }
}

impl View for RegexQuery {
    type V = RegexQueryView;

    open spec fn view(&self) -> RegexQueryView {
        RegexQueryView {
            field: self.field@,
            regex: self.regex@,
            lenient: self.lenient,
            normalize_literals: self.normalize_literals,
        }
    }
}

/// The view of a query.
pub open spec fn ast_view(q: QueryAst) -> QueryAstView
    decreases q,
{
    match q {
        QueryAst::Bool(b) => QueryAstView::Bool(
            BoolQueryView {
                must: asts_view(b.must@),
                must_not: asts_view(b.must_not@),
                should: asts_view(b.should@),
                filter: asts_view(b.filter@),
                minimum_should_match: b.minimum_should_match,
            },
        ),
        QueryAst::Term(t) => QueryAstView::Term(t@),
        QueryAst::Regex(r) => QueryAstView::Regex(r@),
        QueryAst::MatchAll => QueryAstView::MatchAll,
        QueryAst::MatchNone => QueryAstView::MatchNone,
        QueryAst::Boost { underlying, boost } => QueryAstView::Boost {
            underlying: Box::new(ast_view(*underlying)),
            boost: boost.spec_bits(),
        },
    }
}

/// The views of a sequence of queries, element by element.
pub open spec fn asts_view(s: Seq<QueryAst>) -> Seq<QueryAstView>
    decreases s,
{
    if s.len() == 0 {
        Seq::empty()
    } else {
        asts_view(s.drop_last()).push(ast_view(s.last()))
    }
}

pub proof fn lemma_asts_view_len(s: Seq<QueryAst>)
    ensures
        asts_view(s).len() == s.len(),
    decreases s.len(),
{
    if s.len() > 0 {
        lemma_asts_view_len(s.drop_last());
    }
}

pub proof fn lemma_asts_view_index(s: Seq<QueryAst>, i: int)
    requires
        0 <= i < s.len(),
    ensures
        asts_view(s)[i] == ast_view(s[i]),
    decreases s.len(),
{
    lemma_asts_view_len(s.drop_last());
    if i < s.len() - 1 {
        lemma_asts_view_index(s.drop_last(), i);
    }
}

pub proof fn lemma_asts_view_push(s: Seq<QueryAst>, q: QueryAst)
    ensures
        asts_view(s.push(q)) == asts_view(s).push(ast_view(q)),
{
    assert(s.push(q).drop_last() == s);
}

impl View for BoolQuery {
    type V = BoolQueryView;

    open spec fn view(&self) -> BoolQueryView {
        BoolQueryView {
            must: asts_view(self.must@),
            must_not: asts_view(self.must_not@),
            should: asts_view(self.should@),
            filter: asts_view(self.filter@),
            minimum_should_match: self.minimum_should_match,
        }
    }
}

impl View for QueryAst {
    type V = QueryAstView;

    open spec fn view(&self) -> QueryAstView {
        ast_view(*self)
    }
}

impl TermQuery {
    pub fn from_field_value(field: &str, value: &str) -> (r: TermQuery)
        ensures
            r.field@ == field@,
            r.value@ == value@,
    {
        TermQuery { field: field.to_owned(), value: value.to_owned() }
    }
}

impl RegexQuery {
    /// A regex query on `field`, neither lenient nor normalizing its literals.
    pub fn new(field: String, regex: String) -> (r: RegexQuery)
        ensures
            r.field == field,
            r.regex == regex,
            !r.lenient,
            !r.normalize_literals,
    {
        RegexQuery { field, regex, lenient: false, normalize_literals: false }
    }

    /// A regex query on `field` for the pattern `regex`.
    pub fn from_field_value(field: &str, regex: &str) -> (r: RegexQuery)
        ensures
            r@ == (RegexQueryView {
                field: field@,
                regex: regex@,
                lenient: false,
                normalize_literals: false,
            }),
    {
        RegexQuery::new(field.to_owned(), regex.to_owned())
    }

    /// The regex query that a wildcard pattern stands for; its literals go
    /// through the field's normalizer.
    pub fn from_wildcard(field: String, wildcard: &str, case_insensitive: bool) -> (r: RegexQuery)
        ensures
            r.field == field,
            r.regex@ == wildcard_regex(wildcard@, case_insensitive),
            !r.lenient,
            r.normalize_literals,
    {
        RegexQuery {
            field,
            regex: wildcard_to_regex(wildcard, case_insensitive),
            lenient: false,
            normalize_literals: true,
        }
    }
}

impl Default for BoolQuery {
    fn default() -> (r: BoolQuery)
        ensures
            r@ == (BoolQueryView {
                must: Seq::empty(),
                must_not: Seq::empty(),
                should: Seq::empty(),
                filter: Seq::empty(),
                minimum_should_match: None,
            }),
    {
        BoolQuery {
            must: Vec::new(),
            must_not: Vec::new(),
            should: Vec::new(),
            filter: Vec::new(),
            minimum_should_match: None,
        }
    }
}

impl QueryAst {
    /// Wraps the query in a boost, when there is one.
    pub fn boost(self, boost: Option<NotNaNf32>) -> (r: QueryAst)
        ensures
            boost is None ==> r == self,
            boost matches Some(b) ==> r == (QueryAst::Boost { underlying: Box::new(self), boost: b }),
    {
        match boost {
            None => self,
            Some(b) => QueryAst::Boost { underlying: Box::new(self), boost: b },
        }
    }
}

impl Clone for TermQuery {
    fn clone(&self) -> (r: TermQuery)
        ensures
            r == *self,
    {
        TermQuery { field: self.field.clone(), value: self.value.clone() }
    }
}

impl Clone for RegexQuery {
    fn clone(&self) -> (r: RegexQuery)
        ensures
            r == *self,
    {
        RegexQuery {
            field: self.field.clone(),
            regex: self.regex.clone(),
            lenient: self.lenient,
            normalize_literals: self.normalize_literals,
        }
    }
}

impl Clone for QueryAst {
    fn clone(&self) -> (r: QueryAst)
        ensures
            r@ == self@,
        decreases self,
    {
        match self {
            QueryAst::Bool(b) => QueryAst::Bool(b.clone()),
            QueryAst::Term(t) => QueryAst::Term(t.clone()),
            QueryAst::Regex(r) => QueryAst::Regex(r.clone()),
            QueryAst::MatchAll => QueryAst::MatchAll,
            QueryAst::MatchNone => QueryAst::MatchNone,
            QueryAst::Boost { underlying, boost } => {
                let u: &QueryAst = underlying;
                QueryAst::Boost { underlying: Box::new(u.clone()), boost: *boost }
            },
        }
    }
}

impl Clone for BoolQuery {
    fn clone(&self) -> (r: BoolQuery)
        ensures
            r@ == self@,
        decreases self,
    {
        BoolQuery {
            must: clone_asts(&self.must),
            must_not: clone_asts(&self.must_not),
            should: clone_asts(&self.should),
            filter: clone_asts(&self.filter),
            minimum_should_match: self.minimum_should_match,
        }
    }
}

/// Clones each query of `v`, in order.
fn clone_asts(v: &Vec<QueryAst>) -> (r: Vec<QueryAst>)
    ensures
        asts_view(r@) == asts_view(v@),
    decreases v,
{
    let mut r: Vec<QueryAst> = Vec::new();
    let mut i: usize = 0;
    while i < v.len()
        invariant
            0 <= i <= v.len(),
            asts_view(r@) == asts_view(v@.take(i as int)),
            decreases_to!(v => v@),
        decreases v.len() - i,
    {
        assert(decreases_to!(v@ => v@[i as int]));
        let c = v[i].clone();
        proof {
            lemma_asts_view_push(r@, c);
            assert(v@.take(i + 1).drop_last() == v@.take(i as int));
        }
        r.push(c);
        i = i + 1;
    }
    assert(v@.take(v.len() as int) == v@);
    r
}

impl From<RegexQuery> for QueryAst {
    fn from(regex: RegexQuery) -> (r: QueryAst) {
        QueryAst::Regex(regex)
    }
}

impl vstd::std_specs::convert::FromSpecImpl<RegexQuery> for QueryAst {
    open spec fn obeys_from_spec() -> bool {
        true
    }

    open spec fn from_spec(regex: RegexQuery) -> QueryAst {
        QueryAst::Regex(regex)
    }
}

impl From<TermQuery> for QueryAst {
    fn from(term: TermQuery) -> (r: QueryAst) {
        QueryAst::Term(term)
    }
}

impl vstd::std_specs::convert::FromSpecImpl<TermQuery> for QueryAst {
    open spec fn obeys_from_spec() -> bool {
        true
    }

    open spec fn from_spec(term: TermQuery) -> QueryAst {
        QueryAst::Term(term)
    }
}

impl From<BoolQuery> for QueryAst {
    fn from(bool_query: BoolQuery) -> (r: QueryAst) {
        QueryAst::Bool(bool_query)
    }
}

impl vstd::std_specs::convert::FromSpecImpl<BoolQuery> for QueryAst {
    open spec fn obeys_from_spec() -> bool {
        true
    }

    open spec fn from_spec(bool_query: BoolQuery) -> QueryAst {
        QueryAst::Bool(bool_query)
    }
}

} // verus!
