use nyne::routes_dsl::{validate_entries, validate_segments, RouteEntry, SegmentRoute};
use nyne::pattern::{
    parse_lookup_pattern, parse_pattern, resolve_file_modifier, validate_braces, FileModifier,
    ParsedPattern, PatternError, RouteConflict,
};

fn capture(name: &str, prefix: Option<&str>, suffix: Option<&str>) -> ParsedPattern {
    ParsedPattern::Capture {
        name: name.to_owned(),
        prefix: prefix.map(str::to_owned),
        suffix: suffix.map(str::to_owned),
    }
}

fn same(a: &ParsedPattern, b: &ParsedPattern) -> bool {
    match (a, b) {
        (ParsedPattern::Exact(x), ParsedPattern::Exact(y)) => x == y,
        (ParsedPattern::Glob, ParsedPattern::Glob) => true,
        (
            ParsedPattern::Capture { name: n1, prefix: p1, suffix: s1 },
            ParsedPattern::Capture { name: n2, prefix: p2, suffix: s2 },
        ) => n1 == n2 && p1 == p2 && s1 == s2,
        (ParsedPattern::RestCapture { name: n1, suffix: s1 }, ParsedPattern::RestCapture { name: n2, suffix: s2 }) => {
            n1 == n2 && s1 == s2
        }
        _ => false,
    }
}

#[test]
fn validate_braces_ok() {
    for (input, expected) in [
        ("hello", None),
        ("{name}", Some((0, 5))),
        ("pre-{x}-suf", Some((4, 6))),
        ("{name}@", Some((0, 5))),
        ("BLAME.md:{spec}", Some((9, 14))),
    ] {
        assert_eq!(validate_braces(input).unwrap(), expected, "input {input:?}");
    }
}

#[test]
fn validate_braces_err() {
    for (input, expected_msg) in [
        ("{a}{b}", "multiple `{`"),
        ("{a}}", "multiple `}`"),
        ("}a{", "before opening"),
        ("foo{bar", "unclosed"),
        ("foo}bar", "unopened"),
        ("{}", "empty capture"),
    ] {
        let err = validate_braces(input).unwrap_err();
        assert!(
            err.message().contains(expected_msg),
            "input {input:?}: expected error containing {expected_msg:?}, got: {}",
            err.message()
        );
    }
}

#[test]
fn parse_pattern_ok() {
    for (input, expected) in [
        ("hello", ParsedPattern::Exact("hello".to_owned())),
        ("**", ParsedPattern::Glob),
        ("{name}", capture("name", None, None)),
        ("BLAME.md:{spec}", capture("spec", Some("BLAME.md:"), None)),
        ("{name}@", capture("name", None, Some("@"))),
        ("{..rest}", ParsedPattern::RestCapture { name: "rest".to_owned(), suffix: None }),
        ("{..path}@", ParsedPattern::RestCapture { name: "path".to_owned(), suffix: Some("@".to_owned()) }),
    ] {
        let parsed = parse_pattern(input).unwrap();
        assert!(same(&parsed, &expected), "input {input:?}");
    }
}

#[test]
fn parse_pattern_err() {
    let err = parse_pattern("{a}{b}").err().unwrap();
    assert!(err.message().contains("multiple"));
    assert_eq!(parse_pattern("{..}").err(), Some(PatternError::EmptyName));
    assert_eq!(parse_pattern("{9x}").err(), Some(PatternError::InvalidIdentStart));
    assert_eq!(parse_pattern("{a-b}").err(), Some(PatternError::InvalidIdentChars));
    assert_eq!(parse_pattern("x{..rest}").err(), Some(PatternError::RestWithPrefix));
}

#[test]
fn lookup_patterns_need_an_affix() {
    assert!(same(&parse_lookup_pattern("{name}.ext").unwrap(), &capture("name", None, Some(".ext"))));
    assert_eq!(parse_lookup_pattern("{name}").err(), Some(PatternError::LookupWithoutAffix));
    assert_eq!(parse_lookup_pattern("plain").err(), Some(PatternError::LookupNotCapture));
    assert_eq!(parse_lookup_pattern("{..rest}@").err(), Some(PatternError::LookupNotCapture));
}

#[test]
fn file_modifiers_resolve_by_name() {
    assert_eq!(resolve_file_modifier("no_cache"), Ok(FileModifier::NoCache));
    assert_eq!(resolve_file_modifier("hidden"), Ok(FileModifier::Hidden));
    assert_eq!(resolve_file_modifier("sliceable"), Ok(FileModifier::Sliceable));
    assert_eq!(resolve_file_modifier("bogus"), Err(PatternError::UnknownModifier("bogus".to_owned())));
}

fn seg(p: &str, sub_routes: Vec<SegmentRoute>) -> SegmentRoute {
    SegmentRoute {
        parsed_pattern: parse_pattern(p).unwrap(),
        children_handler: None,
        lookups: Vec::new(),
        files: Vec::new(),
        sub_routes,
        no_emit: false,
    }
}

fn leaf(p: &str) -> SegmentRoute {
    seg(p, Vec::new())
}

#[test]
fn segments_must_be_unambiguous_per_level() {
    assert!(validate_segments(&vec![leaf("a"), leaf("b"), leaf("{x}"), leaf("{..r}"), leaf("**")]).is_ok());
    assert_eq!(validate_segments(&vec![leaf("a"), leaf("a")]), Err(RouteConflict::DuplicateExact("a".to_owned())));
    assert_eq!(validate_segments(&vec![leaf("{x}"), leaf("{y}@")]), Err(RouteConflict::MultipleCaptures));
    assert_eq!(validate_segments(&vec![leaf("{..x}"), leaf("{..y}")]), Err(RouteConflict::MultipleRestCaptures));
    assert_eq!(validate_segments(&vec![leaf("**"), leaf("**")]), Err(RouteConflict::MultipleGlobs));
    let nested = seg("a", vec![leaf("b"), leaf("b")]);
    assert_eq!(validate_segments(&vec![nested, leaf("b")]), Err(RouteConflict::DuplicateExact("b".to_owned())));
    let nested_ok = seg("a", vec![leaf("b")]);
    assert!(validate_segments(&vec![nested_ok, leaf("b")]).is_ok());
}

#[test]
fn only_segment_entries_form_a_level() {
    let entries = vec![
        RouteEntry::Children("list".to_owned()),
        RouteEntry::Segment(leaf("{x}")),
        RouteEntry::Children("again".to_owned()),
        RouteEntry::Segment(leaf("a")),
    ];
    assert!(validate_entries(&entries).is_ok());
    let entries = vec![
        RouteEntry::Segment(leaf("{x}")),
        RouteEntry::Children("list".to_owned()),
        RouteEntry::Segment(leaf("{y}")),
    ];
    assert_eq!(validate_entries(&entries), Err(RouteConflict::MultipleCaptures));
    let entries = vec![RouteEntry::Segment(seg("a", vec![leaf("**"), leaf("**")]))];
    assert_eq!(validate_entries(&entries), Err(RouteConflict::MultipleGlobs));
}

#[test]
fn brace_offsets_count_bytes() {
    assert_eq!(validate_braces("é{x}").unwrap(), Some((2, 4)));
    assert_eq!(validate_braces("日本{name}"), Ok(Some((6, 11))));
}
