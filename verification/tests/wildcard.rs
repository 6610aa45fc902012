use quickwit::query_ast::RegexQuery;
use quickwit::wildcard::{
    literal_runs, normalize_literal_runs, wildcard_to_regex, LiteralRun, NormalizeLiteralsError,
};

fn runs_of(regex: &str) -> Vec<LiteralRun> {
    literal_runs(regex).unwrap()
}

/// Normalizes the literals of a regex with a lowercasing normalizer.
fn lowercase_literals(regex: &str) -> String {
    let runs = runs_of(regex);
    let tokens: Vec<Vec<String>> = runs.iter().map(|run| vec![run.text.to_lowercase()]).collect();
    normalize_literal_runs(regex, &runs, &tokens).unwrap()
}

#[test]
fn wildcard_to_regex_on_text() {
    let query = RegexQuery::from_wildcard(
        "text_field".to_string(),
        "MyString Wh1ch?a.nOrMal Tokenizer would*cut",
        false,
    );
    assert_eq!(query.field, "text_field");
    assert!(query.normalize_literals);
    assert!(!query.lenient);
    // Tokenizers that keep the text as it is.
    assert_eq!(
        query.regex,
        "(?-i)(?:MyString Wh1ch).(?:a\\.nOrMal Tokenizer would).*(?:cut)"
    );
    // Tokenizers that lowercase.
    assert_eq!(
        lowercase_literals(&query.regex),
        "(?-i)(?:mystring wh1ch).(?:a\\.normal tokenizer would).*(?:cut)"
    );
}

#[test]
fn wildcard_to_regex_on_escaped_text() {
    let regex = wildcard_to_regex("MyString Wh1ch\\?a.nOrMal Tokenizer would\\*cut", false);
    assert_eq!(
        regex,
        "(?-i)(?:MyString Wh1ch)(?:\\?)(?:a\\.nOrMal Tokenizer would)(?:\\*)(?:cut)"
    );
    assert_eq!(
        lowercase_literals(&regex),
        "(?-i)(?:mystring wh1ch)(?:\\?)(?:a\\.normal tokenizer would)(?:\\*)(?:cut)"
    );
}

#[test]
fn wildcard_to_regex_case_insensitive() {
    let regex = wildcard_to_regex("MyString Wh1ch?a.nOrMal Tokenizer would*cut", true);
    assert_eq!(regex, "(?i)(?:MyString Wh1ch).(?:a\\.nOrMal Tokenizer would).*(?:cut)");
    assert_eq!(
        lowercase_literals(&regex),
        "(?i)(?:mystring wh1ch).(?:a\\.normal tokenizer would).*(?:cut)"
    );
}

#[test]
fn wildcard_to_regex_edge_cases() {
    assert_eq!(wildcard_to_regex("", false), "(?-i)");
    assert_eq!(wildcard_to_regex("*", false), "(?-i).*");
    assert_eq!(wildcard_to_regex("??", true), "(?i)..");
    // A trailing escape is ignored.
    assert_eq!(wildcard_to_regex("ab\\", false), "(?-i)(?:ab)");
    // An escaped backslash is a literal of its own.
    assert_eq!(wildcard_to_regex("a\\\\b", false), "(?-i)(?:a)(?:\\\\)(?:b)");
    // Regex meta characters are escaped.
    assert_eq!(wildcard_to_regex("1+1=(2)", false), "(?-i)(?:1\\+1=\\(2\\))");
    // Non-ASCII characters are kept.
    assert_eq!(wildcard_to_regex("é\\ü*", false), "(?-i)(?:é)(?:ü).*");
}

#[test]
fn literal_runs_join_adjacent_literals() {
    let runs = runs_of("ab.c\\.d");
    assert_eq!(runs.len(), 2);
    assert_eq!((runs[0].start, runs[0].end, runs[0].text.as_str()), (0, 2, "ab"));
    assert_eq!((runs[1].start, runs[1].end, runs[1].text.as_str()), (3, 7, "c.d"));
}

#[test]
fn normalize_literal_runs_errors() {
    let regex = "ab.cd";
    let runs = runs_of(regex);
    assert_eq!(runs.len(), 2);
    let no_token = vec![vec!["ab".to_string()], vec![]];
    assert_eq!(
        normalize_literal_runs(regex, &runs, &no_token),
        Err(NormalizeLiteralsError::NoContent)
    );
    let many_tokens = vec![vec!["a".to_string(), "b".to_string()], vec![]];
    assert_eq!(
        normalize_literal_runs(regex, &runs, &many_tokens),
        Err(NormalizeLiteralsError::MultipleTokens)
    );
    let replaced = vec![vec!["x+".to_string()], vec!["y".to_string()]];
    assert_eq!(normalize_literal_runs(regex, &runs, &replaced), Ok("x\\+.y".to_string()));
}

#[test]
fn literal_runs_of_unparseable_regex() {
    assert!(literal_runs("(").is_none());
    assert!(literal_runs("a[").is_none());
    assert_eq!(runs_of("").len(), 0);
}

#[test]
fn literal_runs_count_characters() {
    // `é` is two bytes long but one character.
    let runs = runs_of("é(b|cd)x*");
    let spans: Vec<(usize, usize, &str)> =
        runs.iter().map(|run| (run.start, run.end, run.text.as_str())).collect();
    assert_eq!(spans, vec![(0, 1, "é"), (2, 3, "b"), (4, 6, "cd"), (7, 8, "x")]);
}
