use davisjr::params::Params;
use davisjr::path::{Path, RoutePart};

#[test]
fn test_path() {
    let path = Path::new("/abc/def/ghi".to_string()).unwrap();
    assert!(path.matches("/abc/def/ghi".to_string()).unwrap());
    assert!(path.matches("//abc/def/ghi".to_string()).unwrap());
    assert!(!path.matches("/def/ghi".to_string()).unwrap());
    assert!(path.params().is_empty());

    let path = Path::new("/abc/:def/:ghi/jkl".to_string()).unwrap();
    assert!(!path.matches("/abc/def/ghi".to_string()).unwrap());
    assert!(path.matches("/abc/def/ghi/jkl".to_string()).unwrap());
    assert!(path.matches("/abc/ghi/def/jkl".to_string()).unwrap());
    assert!(path.matches("/abc/wooble/wakka/jkl".to_string()).unwrap());
    assert!(!path.matches("/nope/ghi/def/jkl".to_string()).unwrap());
    assert!(!path.matches("/abc/ghi/def/nope".to_string()).unwrap());
    assert_eq!(path.params().len(), 2);

    let mut bt = Params::new();
    bt.insert("def".to_string(), "wooble".to_string());
    bt.insert("ghi".to_string(), "wakka".to_string());

    assert_eq!(
        path.extract("/abc/wooble/wakka/jkl".to_string()).unwrap(),
        bt
    );
    assert!(path.extract("/wooble/wakka/jkl".to_string()).is_err());
    assert!(path.extract("/def/wooble/wakka/jkl".to_string()).is_err());

    assert_eq!(
        Path::new("/abc/:wooble/:wakka/jkl".to_string())
            .unwrap()
            .render(),
        "/abc/:wooble/:wakka/jkl".to_string()
    );

    assert_eq!(
        Path::new("/".to_string())
            .unwrap()
            .extract("/".to_string())
            .unwrap(),
        Params::default()
    );

    assert_eq!(
        Path::new("/account/".to_string()).unwrap(),
        Path::new("/account".to_string()).unwrap()
    );

    assert_eq!(Path::default().render(), "/".to_string());

    let path = Path::new("/".to_string()).unwrap();
    assert!(path.matches("/".to_string()).unwrap());

    assert!(Path::new("/abc/*/*".to_string()).is_err());
    assert!(Path::new("/abc/*/:param".to_string()).is_err());
    assert!(Path::new("/abc/*/a/b/c".to_string()).is_ok());

    let path = Path::new("/a/b/c".to_string()).unwrap();
    assert!(!path.matches("/a".to_string()).unwrap());

    let path = Path::new("/abc/*/a".to_string()).unwrap();
    assert!(path.matches("/abc/*/a".to_string()).unwrap());

    let mut p = Params::new();
    p.insert("*".to_string(), "foo/bar".to_string());
    assert_eq!(path.extract("/abc/foo/bar/a".to_string()).unwrap(), p);

    let path = Path::new("/abc/*/a/:test".to_string()).unwrap();
    let mut p = Params::new();
    p.insert("*".to_string(), "foo/bar".to_string());
    p.insert("test".to_string(), "quux".to_string());
    assert_eq!(path.extract("/abc/foo/bar/a/quux".to_string()).unwrap(), p);

    let path = Path::new("/wildcard/*".to_string()).unwrap();
    let mut p = Params::new();
    p.insert("*".to_string(), "frobnik/from/zorbo".to_string());
    assert_eq!(
        path.extract("/wildcard/frobnik/from/zorbo".to_string())
            .unwrap(),
        p
    )
}

// The render of a parsed declaration parses back to an equal pattern.
#[test]
fn test_render_parse_round_trip() {
    for decl in [
        "/",
        "/abc",
        "/abc/def/ghi",
        "/abc/:def/:ghi/jkl",
        "/abc/*/a/:test",
        "/wildcard/*",
        "//doubled//slashes/",
        "/a/::twice/b",
    ] {
        let parsed = Path::new(decl.to_string()).unwrap();
        let rendered = parsed.render();
        let reparsed = Path::new(rendered.clone()).unwrap();
        assert_eq!(parsed, reparsed, "round trip failed for {decl} via {rendered}");
    }
}

// A trailing slash never changes what a declaration parses to.
#[test]
fn test_trailing_slash_idempotent() {
    for decl in ["/", "/account", "/a/:b/c", "/x/*", "/x/*/y"] {
        let with_slash = format!("{decl}/");
        assert_eq!(
            Path::new(decl.to_string()).unwrap(),
            Path::new(with_slash).unwrap(),
            "trailing slash changed the parse of {decl}"
        );
    }
}

// The two ambiguity rules carry their own messages.
#[test]
fn test_parse_error_messages() {
    let e = Path::new("/abc/*/*".to_string()).unwrap_err();
    assert_eq!(e.0, "no more than one wildcard may be used in a path");
    let e = Path::new("/abc/*/:param".to_string()).unwrap_err();
    assert_eq!(
        e.0,
        "params may not immediately follow wildcards due to ambiguity"
    );
    // a wildcard, a literal, then another wildcard is still one wildcard too
    // many
    let e = Path::new("/a/*/b/*".to_string()).unwrap_err();
    assert_eq!(e.0, "no more than one wildcard may be used in a path");
}

// A candidate that itself cannot be read as a pattern fails `matches`.
#[test]
fn test_matches_rejects_unparseable_candidate() {
    let path = Path::new("/a/b".to_string()).unwrap();
    assert!(path.matches("/x/*/*".to_string()).is_err());
    assert!(path.extract("/x/*/*".to_string()).is_err());
}

// The root pattern matches only the root.
#[test]
fn test_root_matches_only_root() {
    let root = Path::new("/".to_string()).unwrap();
    assert!(root.matches("/".to_string()).unwrap());
    assert!(root.matches("//".to_string()).unwrap());
    assert!(!root.matches("/abc".to_string()).unwrap());
    assert!(root.extract("/abc".to_string()).is_err());
}

// A wildcard must consume at least one segment.
#[test]
fn test_wildcard_needs_a_segment() {
    let path = Path::new("/a/*".to_string()).unwrap();
    assert!(!path.matches("/a".to_string()).unwrap());
    assert!(path.matches("/a/b".to_string()).unwrap());
    let path = Path::new("/a/*/b".to_string()).unwrap();
    assert!(!path.matches("/a/b".to_string()).unwrap());
    assert!(path.matches("/a/x/b".to_string()).unwrap());
}

// The wildcard capture is greedy up to the next matching literal.
#[test]
fn test_wildcard_greedy_boundary() {
    let path = Path::new("/a/*/stop/:tail".to_string()).unwrap();
    let params = path.extract("/a/one/two/stop/end".to_string()).unwrap();
    assert_eq!(params.get("*").unwrap(), "one/two");
    assert_eq!(params.get("tail").unwrap(), "end");
    // once the boundary literal is taken, a second occurrence is not
    // reconsidered
    assert!(path.extract("/a/one/stop/extra/stop/end".to_string()).is_err());
}

// Pattern equality is structural; params compare by content.
#[test]
fn test_params_content_equality() {
    let mut a = Params::new();
    a.insert("x".to_string(), "1".to_string());
    a.insert("y".to_string(), "2".to_string());
    let mut b = Params::new();
    b.insert("y".to_string(), "2".to_string());
    b.insert("x".to_string(), "1".to_string());
    assert_eq!(a, b);
    assert_eq!(a.len(), 2);
    b.insert("x".to_string(), "overwritten".to_string());
    assert_ne!(a, b);
    assert_eq!(b.len(), 2);
    assert_eq!(b.get("x").unwrap(), "overwritten");
    assert!(b.get("missing").is_none());
}

// Growing a pattern by hand behaves like the parsed equivalent.
#[test]
fn test_push_extends_pattern() {
    let mut path = Path::default();
    let copy = path.push(RoutePart::PathComponent("abc".to_string()));
    assert_eq!(copy, path);
    let copy = path.push(RoutePart::Param("id".to_string()));
    assert_eq!(copy, Path::new("/abc/:id".to_string()).unwrap());
    assert_eq!(copy.render(), "/abc/:id");
}

// Parameter names are listed in declaration order.
#[test]
fn test_param_name_listing() {
    let path = Path::new("/a/:first/b/:second/*".to_string()).unwrap();
    assert_eq!(path.params(), vec!["first".to_string(), "second".to_string()]);
}
