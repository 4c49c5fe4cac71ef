use nyne::pattern::{parse_lookup_pattern, FileModifier, ParsedPattern, PatternError};
use nyne::routes_dsl::{dispatch_lookup_name, plan_lookups, parse_entries, parse_routes, Delim, DslError, LookupEntry, RouteEntry, SyntaxError, Token};

fn id(s: &str) -> Token {
    Token::Ident(s.to_owned())
}

fn st(s: &str) -> Token {
    Token::Str(s.to_owned())
}

fn p(c: char) -> Token {
    Token::Punct(c)
}

fn brace(v: Vec<Token>) -> Token {
    Token::Group(Delim::Brace, v)
}

fn paren(v: Vec<Token>) -> Token {
    Token::Group(Delim::Paren, v)
}

/// `a => b` as tokens: the `=` and `>` of the arrow between.
fn arrow() -> Vec<Token> {
    vec![p('='), p('>')]
}

fn seq(parts: Vec<Vec<Token>>) -> Vec<Token> {
    parts.into_iter().flatten().collect()
}

#[test]
fn full_declaration_parses_into_a_route_tree() {
    let inner = seq(vec![
        vec![id("lookup"), st("{name}.rs")],
        arrow(),
        vec![id("find_file"), p(',')],
        vec![
            id("file"),
            paren(vec![st("OVERVIEW.md"), p(','), id("overview"), paren(vec![])]),
            p('.'),
            id("no_cache"),
            paren(vec![]),
            p('.'),
            id("hidden"),
            p(','),
        ],
        vec![id("no_emit"), st("inner"), brace(vec![])],
    ]);
    let block = seq(vec![
        vec![st("symbols")],
        arrow(),
        vec![id("list_symbols"), brace(inner), p(',')],
        vec![id("lookup"), paren(vec![id("any_name")]), p(',')],
        vec![id("children"), paren(vec![id("root_children")])],
        vec![id("file"), paren(vec![st("README"), p(','), id("readme")])],
        vec![st("**")],
        arrow(),
        vec![id("lookup"), paren(vec![id("glob_lookup")])],
    ]);
    let input = vec![id("Self"), p(','), brace(block)];
    let routes = parse_routes(&input).unwrap();
    assert_eq!(routes.provider_ty.len(), 1);
    assert_eq!(routes.entries.len(), 5);
    match &routes.entries[0] {
        RouteEntry::Segment(s) => {
            assert!(matches!(&s.parsed_pattern, ParsedPattern::Exact(n) if n == "symbols"));
            assert_eq!(s.children_handler.as_deref(), Some("list_symbols"));
            assert!(!s.no_emit);
            assert_eq!(s.lookups.len(), 1);
            match &s.lookups[0] {
                LookupEntry::Pattern { pattern, handler } => {
                    assert_eq!(handler, "find_file");
                    assert!(matches!(pattern, ParsedPattern::Capture { suffix: Some(x), .. } if x == ".rs"));
                }
                LookupEntry::CatchAll { .. } => panic!("expected a pattern lookup"),
            }
            assert_eq!(s.files.len(), 1);
            assert_eq!(s.files[0].name, "OVERVIEW.md");
            assert_eq!(s.files[0].content.len(), 2);
            assert_eq!(s.files[0].modifiers, vec![FileModifier::NoCache, FileModifier::Hidden]);
            assert_eq!(s.sub_routes.len(), 1);
            assert!(s.sub_routes[0].no_emit);
        }
        _ => panic!("expected a segment"),
    }
    assert!(matches!(&routes.entries[1], RouteEntry::Lookup(LookupEntry::CatchAll { handler }) if handler == "any_name"));
    assert!(matches!(&routes.entries[2], RouteEntry::Children(h) if h == "root_children"));
    assert!(matches!(&routes.entries[3], RouteEntry::File(f) if f.name == "README" && f.modifiers.is_empty()));
    match &routes.entries[4] {
        RouteEntry::Segment(s) => {
            assert!(matches!(s.parsed_pattern, ParsedPattern::Glob));
            assert_eq!(s.lookups.len(), 1);
            assert!(s.children_handler.is_none());
        }
        _ => panic!("expected the glob segment"),
    }
}

#[test]
fn children_inside_a_segment_is_rejected() {
    let block = vec![st("dir"), brace(vec![id("children"), paren(vec![id("h")])])];
    let err = parse_entries(&block, false).map(|_| ()).unwrap_err();
    assert!(matches!(err, DslError::Syntax(SyntaxError::ChildrenInSegment)));
}

#[test]
fn unknown_words_and_modifiers_are_rejected() {
    let err = parse_entries(&[id("bogus"), paren(vec![])], false).map(|_| ()).unwrap_err();
    assert!(matches!(err, DslError::Syntax(SyntaxError::UnknownEntry)));
    let file = vec![id("file"), paren(vec![st("a"), p(','), id("x")]), p('.'), id("shiny")];
    let err = parse_entries(&file, false).map(|_| ()).unwrap_err();
    assert!(matches!(err, DslError::Pattern(PatternError::UnknownModifier(ref n)) if n == "shiny"));
    let missing_expr = vec![id("file"), paren(vec![st("a"), p(',')])];
    let err = parse_entries(&missing_expr, false).map(|_| ()).unwrap_err();
    assert!(matches!(err, DslError::Syntax(SyntaxError::ExpectedExpression)));
}

#[test]
fn declared_lookup_patterns_need_an_affix() {
    let bare = seq(vec![vec![id("lookup"), st("{name}")], arrow(), vec![id("h")]]);
    let err = parse_entries(&bare, false).map(|_| ()).unwrap_err();
    assert!(matches!(err, DslError::Pattern(PatternError::LookupWithoutAffix)));
    let exact = seq(vec![vec![id("lookup"), st("plain")], arrow(), vec![id("h")]]);
    let err = parse_entries(&exact, false).map(|_| ()).unwrap_err();
    assert!(matches!(err, DslError::Pattern(PatternError::LookupNotCapture)));
    let no_arrow = vec![id("lookup"), st("{name}.md"), id("h")];
    let err = parse_entries(&no_arrow, false).map(|_| ()).unwrap_err();
    assert!(matches!(err, DslError::Syntax(SyntaxError::ExpectedArrow)));
}

#[test]
fn declaration_needs_type_comma_and_block() {
    let err = parse_routes(&[id("Self"), brace(vec![])]).map(|_| ()).unwrap_err();
    assert!(matches!(err, DslError::Syntax(SyntaxError::ExpectedComma)));
    let err = parse_routes(&[id("Self"), p(',')]).map(|_| ()).unwrap_err();
    assert!(matches!(err, DslError::Syntax(SyntaxError::ExpectedBlock)));
    let err = parse_routes(&[p(','), brace(vec![])]).map(|_| ()).unwrap_err();
    assert!(matches!(err, DslError::Syntax(SyntaxError::ExpectedProviderType)));
    let ok = parse_routes(&[id("Self"), p(','), brace(vec![])]).unwrap();
    assert!(ok.entries.is_empty());
    let bad_pattern = parse_routes(&[id("Self"), p(','), brace(vec![st("{a}{b}")])]).map(|_| ()).unwrap_err();
    assert!(matches!(bad_pattern, DslError::Pattern(PatternError::MultipleOpen)));
}

fn pattern_lookup(p: &str, handler: &str) -> LookupEntry {
    LookupEntry::Pattern { pattern: parse_lookup_pattern(p).unwrap(), handler: handler.to_owned() }
}

#[test]
fn lookups_plan_pattern_arms_then_the_catch_all() {
    assert!(matches!(plan_lookups(&[]), Ok(None)));
    let dup = plan_lookups(&[
        LookupEntry::CatchAll { handler: "a".to_owned() },
        pattern_lookup("{x}.md", "md"),
        LookupEntry::CatchAll { handler: "b".to_owned() },
    ]);
    assert!(matches!(dup, Err(DslError::Syntax(SyntaxError::DuplicateCatchAll))));
    let plan = plan_lookups(&[
        pattern_lookup("BLAME.md:{spec}", "blame"),
        LookupEntry::CatchAll { handler: "any".to_owned() },
        pattern_lookup("{name}.md", "md"),
    ])
    .unwrap()
    .unwrap();
    assert_eq!(plan.arms.len(), 2);
    assert_eq!(plan.catch_all.as_deref(), Some("any"));
    assert_eq!(
        dispatch_lookup_name(&plan, "BLAME.md:HEAD"),
        Some(("blame".to_owned(), Some(("spec".to_owned(), "HEAD".to_owned()))))
    );
    assert_eq!(
        dispatch_lookup_name(&plan, "notes.md"),
        Some(("md".to_owned(), Some(("name".to_owned(), "notes".to_owned()))))
    );
    assert_eq!(dispatch_lookup_name(&plan, ".md"), Some(("any".to_owned(), None)));
    assert_eq!(dispatch_lookup_name(&plan, "other"), Some(("any".to_owned(), None)));
    let only = plan_lookups(&[pattern_lookup("{name}.md", "md")]).unwrap().unwrap();
    assert_eq!(dispatch_lookup_name(&only, "x.txt"), None);
}
