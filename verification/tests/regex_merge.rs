use quickwit::query_ast::{BoolQuery, QueryAst, RegexQuery, TermQuery};
use quickwit::regex_merge::{merge_regexes, BuildTantivyAstContext};
use regex_syntax::hir::Hir;

fn regex(field: &str, pattern: &str) -> QueryAst {
    RegexQuery::from_field_value(field, pattern).into()
}

/// The resolutions of a schema with a raw text field `url` and a raw JSON
/// field `json`: the regex queries on them resolve to their own pattern.
fn context(queries: &[(&str, &str)]) -> BuildTantivyAstContext {
    let mut context = BuildTantivyAstContext::new();
    for (field, pattern) in queries {
        context.add_resolution(
            RegexQuery::from_field_value(field, pattern),
            Some(pattern.to_string()),
        );
    }
    context
}

fn union_of(patterns: &[&str]) -> String {
    let hirs: Vec<Hir> = patterns
        .iter()
        .map(|pattern| regex_syntax::Parser::new().parse(pattern).unwrap())
        .collect();
    format!("(?-i){}", Hir::alternation(hirs))
}

#[test]
fn test_regex_merge_groups_by_full_field_name() {
    let context = context(&[
        ("url", "foo"),
        ("json.a", "foo"),
        ("url", "bar"),
        ("json.a", "bar"),
        ("json.b", "solo"),
    ]);
    let untouched = [
        TermQuery::from_field_value("url", "keep").into(),
        regex("json.b", "solo"),
    ];
    let mut should = vec![
        regex("url", "foo"),
        regex("json.a", "foo"),
        regex("url", "bar"),
        regex("json.a", "bar"),
    ];
    should.extend(untouched.clone());
    let merged = merge_regexes(
        BoolQuery {
            should,
            ..Default::default()
        }
        .into(),
        &context,
    );
    assert_eq!(merge_regexes(merged.clone(), &context), merged);
    let QueryAst::Bool(merged) = merged else {
        panic!("expected bool")
    };
    assert_eq!(merged.should.len(), 4);
    for clause in untouched {
        assert!(merged.should.contains(&clause));
    }
    let mut fields: Vec<_> = merged
        .should
        .iter()
        .filter_map(|clause| match clause {
            QueryAst::Regex(regex) => Some(regex.field.as_str()),
            _ => None,
        })
        .collect();
    fields.sort_unstable();
    assert_eq!(fields, ["json.a", "json.b", "url"]);
}

#[test]
fn test_regex_merge_only_unions() {
    let context = context(&[("url", "foo"), ("url", "bar")]);
    let alternatives = vec![regex("url", "foo"), regex("url", "bar")];
    for minimum in [1, 2] {
        let original = BoolQuery {
            must: alternatives.clone(),
            filter: alternatives.clone(),
            should: alternatives.clone(),
            must_not: alternatives.clone(),
            minimum_should_match: Some(minimum),
        };
        let QueryAst::Bool(merged) = merge_regexes(original.into(), &context) else {
            panic!("expected bool")
        };
        assert_eq!(merged.must, alternatives);
        assert_eq!(merged.filter, alternatives);
        assert_eq!(merged.minimum_should_match, Some(minimum));
        assert_eq!(merged.must_not.len(), 1);
        if minimum == 2 {
            assert_eq!(merged.should, alternatives);
        } else {
            assert_eq!(merged.should.len(), 1);
        }
    }
}

#[test]
fn test_regex_merge_keeps_unparseable_group() {
    let context = context(&[("url", ".*"), ("url", "(")]);
    let original: QueryAst = BoolQuery {
        should: vec![regex("url", ".*"), regex("url", "(")],
        ..Default::default()
    }
    .into();
    let merged = merge_regexes(original.clone(), &context);
    assert_eq!(merged, original);
}

#[test]
fn merged_regex_is_the_alternation_of_the_resolved_patterns() {
    let mut context = BuildTantivyAstContext::new();
    let mut lenient_foo = RegexQuery::from_field_value("url", "foo");
    lenient_foo.lenient = true;
    context.add_resolution(lenient_foo.clone(), Some("fo+".to_string()));
    context.add_resolution(RegexQuery::from_field_value("url", "bar"), Some("ba[rz]".to_string()));
    let original: QueryAst = BoolQuery {
        should: vec![
            QueryAst::MatchAll,
            lenient_foo.clone().into(),
            regex("url", "bar"),
        ],
        ..Default::default()
    }
    .into();
    let QueryAst::Bool(merged) = merge_regexes(original, &context) else {
        panic!("expected bool")
    };
    assert_eq!(merged.should.len(), 2);
    assert_eq!(merged.should[0], QueryAst::MatchAll);
    let QueryAst::Regex(union) = &merged.should[1] else {
        panic!("expected regex")
    };
    assert_eq!(union.field, "url");
    assert_eq!(union.regex, union_of(&["fo+", "ba[rz]"]));
    assert_ne!(union.regex, "fo+");
    // Only one of the alternatives is lenient.
    assert!(!union.lenient);
    assert!(!union.normalize_literals);
}

#[test]
fn unresolved_group_is_kept() {
    let context = context(&[("url", "foo")]);
    let original: QueryAst = BoolQuery {
        must_not: vec![regex("url", "foo"), regex("url", "bar")],
        ..Default::default()
    }
    .into();
    assert_eq!(merge_regexes(original.clone(), &context), original);
}

#[test]
fn groups_come_in_field_order_after_other_clauses() {
    let context = context(&[("b", "x"), ("b", "y"), ("a", "x"), ("a", "y"), ("c", "z")]);
    let original: QueryAst = BoolQuery {
        should: vec![
            regex("c", "z"),
            regex("b", "x"),
            QueryAst::MatchNone,
            regex("a", "x"),
            regex("b", "y"),
            regex("a", "y"),
        ],
        ..Default::default()
    }
    .into();
    let QueryAst::Bool(merged) = merge_regexes(original, &context) else {
        panic!("expected bool")
    };
    let expected: Vec<QueryAst> = vec![
        QueryAst::MatchNone,
        RegexQuery::new("a".to_string(), union_of(&["x", "y"])).into(),
        RegexQuery::new("b".to_string(), union_of(&["x", "y"])).into(),
        regex("c", "z"),
    ];
    assert_eq!(merged.should, expected);
}

#[test]
fn reordering_should_clauses_across_fields_gives_the_same_merge() {
    let context = context(&[("b", "x"), ("b", "y"), ("a", "x"), ("a", "y")]);
    let first: QueryAst = BoolQuery {
        should: vec![
            regex("b", "x"),
            QueryAst::MatchNone,
            regex("a", "x"),
            regex("b", "y"),
            regex("a", "y"),
        ],
        ..Default::default()
    }
    .into();
    let second: QueryAst = BoolQuery {
        should: vec![
            regex("a", "x"),
            regex("a", "y"),
            QueryAst::MatchNone,
            regex("b", "x"),
            regex("b", "y"),
        ],
        ..Default::default()
    }
    .into();
    assert_eq!(merge_regexes(first, &context), merge_regexes(second, &context));
}

#[test]
fn nested_unions_are_merged() {
    let context = context(&[("url", "foo"), ("url", "bar")]);
    let inner: QueryAst = BoolQuery {
        should: vec![regex("url", "foo"), regex("url", "bar")],
        ..Default::default()
    }
    .into();
    let boosted = inner.clone().boost(quickwit::query_ast::NotNaNf32::from_bits(0x4000_0000));
    let original: QueryAst = BoolQuery {
        must: vec![inner, boosted],
        ..Default::default()
    }
    .into();
    let QueryAst::Bool(merged) = merge_regexes(original, &context) else {
        panic!("expected bool")
    };
    let QueryAst::Bool(first) = &merged.must[0] else {
        panic!("expected bool")
    };
    assert_eq!(first.should.len(), 1);
    let QueryAst::Boost { underlying, .. } = &merged.must[1] else {
        panic!("expected boost")
    };
    let QueryAst::Bool(second) = underlying.as_ref() else {
        panic!("expected bool")
    };
    assert_eq!(second.should.len(), 1);
}

#[test]
fn resolution_lookup() {
    let mut context = BuildTantivyAstContext::new();
    context.add_resolution(RegexQuery::from_field_value("f", "a"), None);
    context.add_resolution(RegexQuery::from_field_value("f", "a"), Some("b".to_string()));
    context.add_resolution(RegexQuery::from_field_value("g", "a"), Some("c".to_string()));
    // The first recorded resolution counts.
    assert_eq!(context.resolve(&RegexQuery::from_field_value("f", "a")), None);
    assert_eq!(
        context.resolve(&RegexQuery::from_field_value("g", "a")),
        Some("c".to_string())
    );
    assert_eq!(context.resolve(&RegexQuery::from_field_value("h", "a")), None);
}
