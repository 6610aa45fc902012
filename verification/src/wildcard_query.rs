//! The Elasticsearch `wildcard` query and its conversion into a query AST.

use vstd::prelude::*;

use crate::query_ast::{NotNaNf32, QueryAst, QueryAstView, RegexQuery, RegexQueryView};
use crate::wildcard::wildcard_regex;

verus! {

/// A map with exactly one entry: a field and its value.
#[derive(Debug, PartialEq, Eq)]
pub struct OneFieldMap<V> {
    pub field: String,
    pub value: V,
}

/// A value given either as a plain string or as a structure.
#[derive(Debug, PartialEq, Eq)]
pub struct StringOrStructForSerialization<T> {
    pub inner: T,
}

/// The parameters of a wildcard query.
#[derive(Debug, PartialEq, Eq)]
pub struct WildcardQueryParams {
    value: String,
    pub boost: Option<NotNaNf32>,
    case_insensitive: bool,
}

/// A wildcard query on a field.
#[derive(Debug, PartialEq, Eq)]
pub struct WildcardQuery {
    pub field: String,
    pub params: WildcardQueryParams,
}

impl WildcardQueryParams {
    pub closed spec fn spec_value(&self) -> Seq<char> {
        self.value@
    }

    pub closed spec fn spec_case_insensitive(&self) -> bool {
        self.case_insensitive
    }

    pub closed spec fn spec_boost(&self) -> Option<NotNaNf32> {
        self.boost
    }

    pub fn new(value: String, boost: Option<NotNaNf32>, case_insensitive: bool) -> (r:
        WildcardQueryParams)
        ensures
            r.spec_value() == value@,
            r.spec_boost() == boost,
            r.spec_case_insensitive() == case_insensitive,
    {
        WildcardQueryParams { value, boost, case_insensitive }
    }

    /// The wildcard pattern.
    pub fn value(&self) -> (r: &String)
        ensures
            r@ == self.spec_value(),
    {
        &self.value
    }

    /// Whether the pattern matches regardless of case.
    pub fn case_insensitive(&self) -> (r: bool)
        ensures
            r == self.spec_case_insensitive(),
    {
        self.case_insensitive
    }
}

impl From<String> for WildcardQueryParams {
    /// Parameters given as a plain string: the pattern, without boost, case
    /// sensitive.
    fn from(value: String) -> (r: WildcardQueryParams)
        ensures
            r.spec_value() == value@,
            r.spec_boost() is None,
            !r.spec_case_insensitive(),
    {
        WildcardQueryParams { value, boost: None, case_insensitive: false }
    }
}

impl vstd::std_specs::convert::FromSpecImpl<String> for WildcardQueryParams {
    open spec fn obeys_from_spec() -> bool {
        true
    }

    closed spec fn from_spec(value: String) -> WildcardQueryParams {
        WildcardQueryParams { value, boost: None, case_insensitive: false }
    }
}

impl From<OneFieldMap<StringOrStructForSerialization<WildcardQueryParams>>> for WildcardQuery {
    fn from(match_query_params: OneFieldMap<StringOrStructForSerialization<WildcardQueryParams>>) -> (r:
        WildcardQuery)
        ensures
            r.field == match_query_params.field,
            r.params == match_query_params.value.inner,
    {
        let OneFieldMap { field, value } = match_query_params;
        WildcardQuery { field, params: value.inner }
    }
}

impl vstd::std_specs::convert::FromSpecImpl<OneFieldMap<StringOrStructForSerialization<WildcardQueryParams>>> for WildcardQuery {
    open spec fn obeys_from_spec() -> bool {
        true
    }

    open spec fn from_spec(
        match_query_params: OneFieldMap<StringOrStructForSerialization<WildcardQueryParams>>,
    ) -> WildcardQuery {
        WildcardQuery {
            field: match_query_params.field,
            params: match_query_params.value.inner,
        }
    }
}

/// The query that a wildcard query stands for: a lenient regex query for the
/// pattern, with literal normalization, boosted when the query has a boost.
pub open spec fn wildcard_query_ast(
    field: Seq<char>,
    value: Seq<char>,
    case_insensitive: bool,
    boost: Option<NotNaNf32>,
) -> QueryAstView {
    let regex = QueryAstView::Regex(
        RegexQueryView {
            field,
            regex: wildcard_regex(value, case_insensitive),
            lenient: true,
            normalize_literals: true,
        },
    );
    match boost {
        None => regex,
        Some(b) => QueryAstView::Boost { underlying: Box::new(regex), boost: b.spec_bits() },
    }
}

impl WildcardQuery {
    /// Converts the wildcard query into a query AST.
    pub fn convert_to_query_ast(self) -> (r: QueryAst)
        ensures
            r@ == wildcard_query_ast(
                self.field@,
                self.params.spec_value(),
                self.params.spec_case_insensitive(),
                self.params.spec_boost(),
            ),
    {
        let mut regex_query = RegexQuery::from_wildcard(
            self.field,
            self.params.value.as_str(),
            self.params.case_insensitive,
        );
        regex_query.lenient = true;
        let ghost rv = RegexQueryView {
            field: self.field@,
            regex: wildcard_regex(self.params.spec_value(), self.params.spec_case_insensitive()),
            lenient: true,
            normalize_literals: true,
        };
        assert(regex_query@ == rv);
        let wildcard_ast = QueryAst::Regex(regex_query);
        assert(wildcard_ast@ == QueryAstView::Regex(rv));
        let r = wildcard_ast.boost(self.params.boost);
        assert(r@ == wildcard_query_ast(
            self.field@,
            self.params.spec_value(),
            self.params.spec_case_insensitive(),
            self.params.spec_boost(),
        ));
        r
    }
}


/// A wildcard query, whatever its pattern (`*` alone included), becomes a
/// regex query on its field for the pattern's regex, lenient and normalizing
/// its literals, under the query's boost when it has one: never a query that
/// matches documents regardless of the field.
pub proof fn lemma_wildcard_query_is_regex(
    field: Seq<char>,
    value: Seq<char>,
    case_insensitive: bool,
    boost: Option<NotNaNf32>,
)
    ensures
        boost is None ==> wildcard_query_ast(field, value, case_insensitive, boost)
            == QueryAstView::Regex(
            (RegexQueryView {
                field,
                regex: wildcard_regex(value, case_insensitive),
                lenient: true,
                normalize_literals: true,
            }),
        ),
        boost matches Some(b) ==> wildcard_query_ast(field, value, case_insensitive, boost)
            == (QueryAstView::Boost {
            underlying: Box::new(
                QueryAstView::Regex(
                    (RegexQueryView {
                        field,
                        regex: wildcard_regex(value, case_insensitive),
                        lenient: true,
                        normalize_literals: true,
                    }),
                ),
            ),
            boost: b.spec_bits(),
        }),
{
}

} // verus!
