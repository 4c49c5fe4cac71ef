use nyne::node::VirtualNode;
use nyne::path::VfsPath;
use nyne::routing::builder::{RouteNodeBuilder, RouteTreeBuilder};
use nyne::routing::ctx::{RequestContext, RouteCtx};
use nyne::routing::params::RouteParams;
use nyne::routing::segment::{CaptureResult, SegmentMatcher};
use nyne::routing::tree::{find_rest_splits, build_captured, Node, Nodes, RouteHandlers};

fn at(path: &str) -> VfsPath {
    VfsPath::new(path).unwrap()
}

/// Stub provider whose handlers are addressed by name.
struct TestProvider;

impl RouteHandlers for TestProvider {
    fn children(&self, handler: &'static str, ctx: &RouteCtx<'_>) -> Nodes {
        match handler {
            "handle_root" => Ok(Some(vec![VirtualNode::file("root.txt")])),
            "handle_items" => {
                let x = ctx.param("x");
                Ok(Some(vec![VirtualNode::file(&format!("{x}.txt"))]))
            }
            "handle_nested" => {
                let xs = ctx.params("xs");
                Ok(Some(vec![VirtualNode::file(&format!("{}.txt", xs.join("/")))]))
            }
            "capture_txt" => Ok(Some(vec![VirtualNode::file("capture.txt")])),
            "exact_txt" => Ok(Some(vec![VirtualNode::file("exact.txt")])),
            "two_files" => Ok(Some(vec![VirtualNode::file("a.txt"), VirtualNode::file("b.txt")])),
            "at_dir" => Ok(Some(vec![VirtualNode::directory("@")])),
            _ => Ok(None),
        }
    }

    fn lookup(&self, handler: &'static str, _ctx: &RouteCtx<'_>, name: &str) -> Node {
        match handler {
            "found_only" => {
                if name == "found" {
                    Ok(Some(VirtualNode::file("found")))
                } else {
                    Ok(None)
                }
            }
            "glob_any" => Ok(Some(VirtualNode::file(name))),
            _ => Ok(None),
        }
    }
}

fn names(nodes: &[VirtualNode]) -> Vec<&str> {
    nodes.iter().map(VirtualNode::name).collect()
}

#[test]
fn exact_matching() {
    for (pattern, input, expected) in [("foo", "foo", true), ("foo", "bar", false), ("foo", "FOO", false)] {
        let pattern: &'static str = pattern.to_owned().leak();
        assert_eq!(SegmentMatcher::Exact(pattern).matches(input).is_some(), expected);
    }
}

#[test]
fn capture_matching() {
    let cases: [(Option<&'static str>, Option<&'static str>, &str, Option<&str>); 8] = [
        (None, None, "hello", Some("hello")),
        (None, Some("@"), "hello@", Some("hello")),
        (None, Some("@"), "hello", None),
        (None, Some("@"), "@", None),
        (Some("BLAME.md:"), None, "BLAME.md:5-20", Some("5-20")),
        (Some("BLAME.md:"), None, "LOG.md:5-20", None),
        (Some("BLAME.md:"), None, "BLAME.md:", None),
        (Some("pre-"), Some("-suf"), "pre-hello-suf", Some("hello")),
    ];
    for (prefix, suffix, input, expected) in cases {
        let m = SegmentMatcher::Capture { name: "x", prefix, suffix };
        match (m.matches(input), expected) {
            (Some(CaptureResult::Single(name, captured)), Some(val)) => {
                assert_eq!(name, "x");
                assert_eq!(captured, val);
            }
            (None, None) => {}
            (other, _) => panic!("input {input:?}: unexpected {other:?}"),
        }
    }
}

#[test]
fn glob_root_rest_not_matched_by_matches() {
    assert!(SegmentMatcher::Glob.matches("anything").is_none());
    assert!(SegmentMatcher::Root.matches("x").is_none());
    assert!(SegmentMatcher::RestCapture { name: "x", suffix: None }.matches("x").is_none());
}

#[test]
fn precedence_ordering() {
    let cases = [
        (SegmentMatcher::Exact("x"), 1),
        (SegmentMatcher::Capture { name: "x", prefix: Some("p:"), suffix: None }, 2),
        (SegmentMatcher::Capture { name: "x", prefix: None, suffix: Some("@") }, 2),
        (SegmentMatcher::Capture { name: "x", prefix: None, suffix: None }, 3),
        (SegmentMatcher::RestCapture { name: "x", suffix: None }, 4),
        (SegmentMatcher::Glob, 5),
        (SegmentMatcher::Root, 0),
    ];
    for (matcher, expected) in cases {
        assert_eq!(matcher.precedence(), expected);
    }
}

#[test]
fn param_returns_captured_value() {
    let mut params = RouteParams::default();
    params.insert_single("source", "file.rs".into());
    assert_eq!(params.get("source"), "file.rs");
}

#[test]
fn rest_param_returns_captured_segments() {
    let mut params = RouteParams::default();
    params.insert_rest("path", vec!["a".into(), "b".into()]);
    assert_eq!(params.get_rest("path"), &["a", "b"]);
}

#[test]
fn params_later_insert_replaces_earlier() {
    let mut params = RouteParams::new();
    params.insert_single("x", "one".into());
    params.insert_single("x", "two".into());
    assert_eq!(params.get("x"), "two");
    assert_eq!(params.find("y"), None);
}

#[test]
fn tree_matches_exact_root() {
    let tree = RouteTreeBuilder::<TestProvider>::new()
        .route(RouteNodeBuilder::exact("foo").children("handle_root"))
        .build();
    let path = at("foo");
    let result = tree.children(&TestProvider, &RequestContext { path: &path }).unwrap();
    assert!(result.is_some());
}

#[test]
fn tree_returns_none_for_unmatched_path() {
    let tree = RouteTreeBuilder::<TestProvider>::new()
        .route(RouteNodeBuilder::exact("foo").children("handle_root"))
        .build();
    let path = at("bar");
    let result = tree.children(&TestProvider, &RequestContext { path: &path }).unwrap();
    assert!(result.is_none());
}

#[test]
fn tree_captures_propagate_to_children() {
    let tree = RouteTreeBuilder::<TestProvider>::new()
        .route(
            RouteNodeBuilder::capture("x", None, Some("@"))
                .route(RouteNodeBuilder::exact("sub").children("handle_items")),
        )
        .build();
    let path = at("hello@/sub");
    let result = tree.children(&TestProvider, &RequestContext { path: &path }).unwrap().unwrap();
    assert_eq!(result.first().unwrap().name(), "hello.txt");
}

#[test]
fn precedence_exact_before_capture() {
    let tree = RouteTreeBuilder::<TestProvider>::new()
        .route(RouteNodeBuilder::capture("x", None, None).children("capture_txt"))
        .route(RouteNodeBuilder::exact("foo").children("exact_txt"))
        .build();
    let path = at("foo");
    let result = tree.children(&TestProvider, &RequestContext { path: &path }).unwrap().unwrap();
    assert_eq!(result.first().unwrap().name(), "exact.txt");
}

#[test]
fn rest_capture_rightmost_suffix() {
    let tree = RouteTreeBuilder::<TestProvider>::new()
        .route(
            RouteNodeBuilder::rest_capture("xs", Some("@"))
                .route(RouteNodeBuilder::exact("sub").children("handle_nested")),
        )
        .build();
    let path = at("A@/mid/B@/sub");
    let result = tree.children(&TestProvider, &RequestContext { path: &path }).unwrap().unwrap();
    assert_eq!(result.first().unwrap().name(), "A/mid/B.txt");
}

#[test]
fn rest_capture_suffix_stripped_from_all_segments() {
    let tree = RouteTreeBuilder::<TestProvider>::new()
        .route(RouteNodeBuilder::rest_capture("xs", Some("@")).children("handle_nested"))
        .build();
    let path = at("sec-a@/sec-b@/sec-c@");
    let result = tree.children(&TestProvider, &RequestContext { path: &path }).unwrap().unwrap();
    assert_eq!(result.first().unwrap().name(), "sec-a/sec-b/sec-c.txt");
}

#[test]
fn rest_capture_no_suffix_consumes_all() {
    let tree = RouteTreeBuilder::<TestProvider>::new()
        .route(RouteNodeBuilder::rest_capture("xs", None).children("handle_nested"))
        .build();
    let path = at("a/b/c");
    let result = tree.children(&TestProvider, &RequestContext { path: &path }).unwrap().unwrap();
    assert_eq!(result.first().unwrap().name(), "a/b/c.txt");
}

#[test]
fn static_files_appear_in_children() {
    let tree = RouteTreeBuilder::<TestProvider>::new()
        .route(RouteNodeBuilder::exact("dir").file("README.md", VirtualNode::file("README.md")))
        .build();
    let path = at("dir");
    let result = tree.children(&TestProvider, &RequestContext { path: &path }).unwrap().unwrap();
    assert_eq!(result.first().unwrap().name(), "README.md");
}

#[test]
fn static_files_found_by_lookup() {
    let tree = RouteTreeBuilder::<TestProvider>::new()
        .route(RouteNodeBuilder::exact("dir").file("README.md", VirtualNode::file("README.md")))
        .build();
    let path = at("dir");
    let result = tree.lookup(&TestProvider, &RequestContext { path: &path }, "README.md").unwrap();
    assert!(result.is_some());
    assert_eq!(result.unwrap().name(), "README.md");
}

#[test]
fn lookup_handler_dispatches() {
    let tree = RouteTreeBuilder::<TestProvider>::new()
        .route(RouteNodeBuilder::exact("dir").lookup("found_only"))
        .build();
    let path = at("dir");
    let ctx = RequestContext { path: &path };
    assert!(tree.lookup(&TestProvider, &ctx, "found").unwrap().is_some());
    assert!(tree.lookup(&TestProvider, &ctx, "missing").unwrap().is_none());
}

#[test]
fn glob_lookup_fallback() {
    let tree = RouteTreeBuilder::<TestProvider>::new()
        .route(RouteNodeBuilder::glob().lookup("glob_any"))
        .build();
    let path = at("any/deep/path");
    let result = tree.lookup(&TestProvider, &RequestContext { path: &path }, "test").unwrap();
    assert!(result.is_some());
    assert_eq!(result.unwrap().name(), "test");
}

#[test]
fn rebuild_node_finds_by_name() {
    let tree = RouteTreeBuilder::<TestProvider>::new()
        .route(RouteNodeBuilder::exact("dir").children("two_files"))
        .build();
    let path = at("dir");
    let result = tree.rebuild_node(&TestProvider, &RequestContext { path: &path }, "b.txt").unwrap();
    assert!(result.is_some());
    assert_eq!(result.unwrap().name(), "b.txt");
}

#[test]
fn exact_sub_routes_auto_emit_directories() {
    let tree = RouteTreeBuilder::<TestProvider>::new()
        .route(
            RouteNodeBuilder::exact("parent")
                .file("README.md", VirtualNode::file("README.md"))
                .route(RouteNodeBuilder::exact("child-a"))
                .route(RouteNodeBuilder::exact("child-b"))
                .route(RouteNodeBuilder::capture("id", None, None)),
        )
        .build();
    let path = at("parent");
    let result = tree.children(&TestProvider, &RequestContext { path: &path }).unwrap().unwrap();
    assert_eq!(names(&result), ["README.md", "child-a", "child-b"]);
}

#[test]
fn no_emit_hides_root_companion_but_contents_visible() {
    let tree = RouteTreeBuilder::<TestProvider>::new()
        .route(RouteNodeBuilder::exact(".companion"))
        .route(RouteNodeBuilder::exact("@").no_emit().route(RouteNodeBuilder::exact("agents")))
        .build();
    let root = at("");
    let root_children = tree.children(&TestProvider, &RequestContext { path: &root }).unwrap().unwrap();
    assert_eq!(names(&root_children), [".companion"]);
    let at_dir = at("@");
    let at_children = tree.children(&TestProvider, &RequestContext { path: &at_dir }).unwrap().unwrap();
    assert_eq!(names(&at_children), ["agents"]);
}

#[test]
fn no_emit_suppresses_auto_directory() {
    let tree = RouteTreeBuilder::<TestProvider>::new()
        .route(
            RouteNodeBuilder::exact("parent")
                .route(RouteNodeBuilder::exact("visible"))
                .route(RouteNodeBuilder::exact("hidden").no_emit()),
        )
        .build();
    let path = at("parent");
    let result = tree.children(&TestProvider, &RequestContext { path: &path }).unwrap().unwrap();
    assert_eq!(names(&result), ["visible"]);
}

#[test]
fn root_children_handler() {
    let tree = RouteTreeBuilder::<TestProvider>::new().children("at_dir").build();
    let root = at("");
    let result = tree.children(&TestProvider, &RequestContext { path: &root }).unwrap().unwrap();
    assert_eq!(result.first().unwrap().name(), "@");
}

#[test]
fn rest_splits_are_rightmost_first() {
    assert_eq!(find_rest_splits(&["a@", "b", "c@", "d"], "@"), vec![2, 0]);
    assert!(find_rest_splits(&["a", "b"], "@").is_empty());
}

#[test]
fn captured_segments_strip_suffix_everywhere() {
    assert_eq!(build_captured(&["a@", "b", "c@", "d@"], 2, "@"), vec!["a", "b", "c"]);
}

#[test]
fn builder_orders_sub_routes_by_precedence() {
    let tree = RouteTreeBuilder::<TestProvider>::new()
        .route(RouteNodeBuilder::glob())
        .route(RouteNodeBuilder::rest_capture("r", None))
        .route(RouteNodeBuilder::capture("c", None, None))
        .route(RouteNodeBuilder::capture("p", Some("x:"), None))
        .route(RouteNodeBuilder::exact("e1"))
        .route(RouteNodeBuilder::exact("e2"))
        .build();
    let order: Vec<u8> = tree.root.sub_routes.iter().map(|n| n.segment.precedence()).collect();
    assert_eq!(order, vec![1, 1, 2, 3, 4, 5]);
    assert!(matches!(tree.root.sub_routes[0].segment, SegmentMatcher::Exact("e1")));
    assert!(matches!(tree.root.sub_routes[1].segment, SegmentMatcher::Exact("e2")));
}

#[test]
fn capture_takes_back_the_wrapped_value() {
    let m = SegmentMatcher::Capture { name: "spec", prefix: Some("BLAME.md:"), suffix: Some("@") };
    for v in ["x", "a:b", "@@"] {
        let seg = format!("BLAME.md:{v}@");
        match m.matches(&seg) {
            Some(CaptureResult::Single(name, captured)) => {
                assert_eq!(name, "spec");
                assert_eq!(captured, v);
            }
            _ => panic!("expected a capture of {v}"),
        }
    }
    assert!(m.matches("BLAME.md:@").is_none());
}
