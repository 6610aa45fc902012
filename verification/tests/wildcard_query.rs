use quickwit::query_ast::{NotNaNf32, QueryAst};
use quickwit::wildcard_query::{
    OneFieldMap, StringOrStructForSerialization, WildcardQuery, WildcardQueryParams,
};

fn wildcard_query(field: &str, params: WildcardQueryParams) -> WildcardQuery {
    WildcardQuery::from(OneFieldMap {
        field: field.to_string(),
        value: StringOrStructForSerialization { inner: params },
    })
}

#[test]
fn test_wildcard_query_convert_to_query_ast() {
    // {"user_name": {"value": "john*"}}
    let wildcard_query = wildcard_query(
        "user_name",
        WildcardQueryParams::new("john*".to_string(), None, false),
    );
    let query_ast = wildcard_query.convert_to_query_ast();

    if let QueryAst::Regex(regex) = query_ast {
        assert_eq!(regex.field, "user_name");
        assert_eq!(regex.regex, "(?-i)(?:john).*");
        assert!(regex.lenient);
        assert!(regex.normalize_literals);
    } else {
        panic!("Expected QueryAst::Regex");
    }
}

#[test]
fn test_boosted_wildcard_query_convert_to_query_ast() {
    // {"user_name": {"value": "john*", "boost": 2.0}}
    let boost = NotNaNf32::from_bits(2.0f32.to_bits());
    let wildcard_query = wildcard_query(
        "user_name",
        WildcardQueryParams::new("john*".to_string(), boost, false),
    );
    let query_ast = wildcard_query.convert_to_query_ast();

    if let QueryAst::Boost { underlying, boost } = query_ast {
        if let QueryAst::Regex(regex) = *underlying {
            assert_eq!(regex.field, "user_name");
            assert_eq!(regex.regex, "(?-i)(?:john).*");
            assert!(regex.lenient);
            assert!(regex.normalize_literals);
        } else {
            panic!("Expected underlying QueryAst::Regex");
        }
        assert_eq!(boost, NotNaNf32::from_bits(2.0f32.to_bits()).unwrap());
        assert_eq!(f32::from_bits(boost.to_bits()), 2.0);
    } else {
        panic!("Expected QueryAst::Boost");
    }
}

#[test]
fn wildcard_query_from_plain_string() {
    let params = WildcardQueryParams::from("Jo?n".to_string());
    assert_eq!(params.value(), "Jo?n");
    assert!(!params.case_insensitive());
    assert!(params.boost.is_none());
    let query_ast = wildcard_query("name", params).convert_to_query_ast();
    let QueryAst::Regex(regex) = query_ast else {
        panic!("Expected QueryAst::Regex");
    };
    assert_eq!(regex.regex, "(?-i)(?:Jo).(?:n)");
}

#[test]
fn case_insensitive_wildcard_query() {
    let params = WildcardQueryParams::new("a*".to_string(), None, true);
    let QueryAst::Regex(regex) = wildcard_query("f", params).convert_to_query_ast() else {
        panic!("Expected QueryAst::Regex");
    };
    assert_eq!(regex.regex, "(?i)(?:a).*");
}

#[test]
fn nan_boost_is_refused() {
    assert!(NotNaNf32::from_bits(f32::NAN.to_bits()).is_none());
    assert!(NotNaNf32::from_bits(f32::INFINITY.to_bits()).is_some());
    assert!(NotNaNf32::from_bits(0.5f32.to_bits()).is_some());
}
