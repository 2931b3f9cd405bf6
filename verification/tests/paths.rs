use runtime_macros::{ExpansionError, SymbolicPath};

fn path(leading_colon: bool, segments: &[&str]) -> SymbolicPath {
    SymbolicPath { leading_colon, segments: segments.iter().map(|s| s.to_string()).collect() }
}

#[test]
fn resolve_reads_the_segments_in_order() {
    let resolved = SymbolicPath::resolve("std::collections::HashMap").unwrap();
    assert_eq!(resolved, path(false, &["std", "collections", "HashMap"]));
    assert_eq!(SymbolicPath::resolve("check").unwrap(), path(false, &["check"]));
}

#[test]
fn resolve_keeps_a_leading_separator() {
    assert_eq!(SymbolicPath::resolve("::helpers::check").unwrap(), path(true, &["helpers", "check"]));
    assert_ne!(SymbolicPath::resolve("::check").unwrap(), SymbolicPath::resolve("check").unwrap());
}

#[test]
fn resolve_does_not_mind_spacing() {
    assert_eq!(SymbolicPath::resolve("  a ::b::  c ").unwrap(), path(false, &["a", "b", "c"]));
    assert_eq!(SymbolicPath::resolve(":: a").unwrap(), path(true, &["a"]));
}

#[test]
fn resolve_accepts_the_path_keywords() {
    assert_eq!(SymbolicPath::resolve("crate::check").unwrap(), path(false, &["crate", "check"]));
    assert_eq!(SymbolicPath::resolve("self::check").unwrap(), path(false, &["self", "check"]));
    assert_eq!(SymbolicPath::resolve("super::check").unwrap(), path(false, &["super", "check"]));
    assert_eq!(SymbolicPath::resolve("r#check").unwrap(), path(false, &["r#check"]));
}

#[test]
fn resolve_refuses_what_is_not_a_path() {
    for text in ["", " ", "::", "a::", "a:b", "a b", "1a", "check!", "a::(b)", "a.b", "a::b;"] {
        let resolved = SymbolicPath::resolve(text);
        assert!(matches!(resolved, Err(ExpansionError::SyntaxFailure(_))), "{:?}", text);
    }
}

#[test]
fn a_resolved_path_has_a_segment() {
    for text in ["a", "::a", "a::b", "Vec<u8>", "crate"] {
        assert!(!SymbolicPath::resolve(text).unwrap().segments.is_empty());
    }
}

#[test]
fn generic_arguments_stay_in_the_segment() {
    let resolved = SymbolicPath::resolve("Vec<u8>").unwrap();
    assert_eq!(resolved.segments.len(), 1);
    assert_eq!(resolved.segments[0].replace(' ', ""), "Vec<u8>");
    assert!(!resolved.same_as(&SymbolicPath::resolve("Vec").unwrap()));
    assert!(resolved.same_as(&SymbolicPath::resolve("Vec < u8 >").unwrap()));
}

#[test]
fn same_as_compares_segment_by_segment() {
    let a = path(false, &["a", "b"]);
    assert!(a.same_as(&path(false, &["a", "b"])));
    assert!(a.same_as(&a));
    assert!(!a.same_as(&path(true, &["a", "b"])));
    assert!(!a.same_as(&path(false, &["a"])));
    assert!(!a.same_as(&path(false, &["a", "b", "c"])));
    assert!(!a.same_as(&path(false, &["a", "c"])));
    assert!(!a.same_as(&path(false, &["b", "a"])));
    assert!(!a.same_as(&path(false, &["a", "B"])));
    assert!(path(false, &[]).same_as(&path(false, &[])));
    assert!(!path(false, &[]).same_as(&path(true, &[])));
}

#[test]
fn is_name_holds_of_the_single_name_only() {
    assert!(path(false, &["derive"]).is_name("derive"));
    assert!(!path(true, &["derive"]).is_name("derive"));
    assert!(!path(false, &["derive", "derive"]).is_name("derive"));
    assert!(!path(false, &["Derive"]).is_name("derive"));
    assert!(!path(false, &["deriv"]).is_name("derive"));
    assert!(!path(false, &[]).is_name("derive"));
    assert!(!path(false, &[]).is_name(""));
    assert!(path(false, &[""]).is_name(""));
}

#[test]
fn display_joins_the_segments() {
    assert_eq!(path(false, &["a", "b", "c"]).display(), "a::b::c");
    assert_eq!(path(true, &["a", "b"]).display(), "::a::b");
    assert_eq!(path(false, &["check"]).display(), "check");
    assert_eq!(path(true, &["check"]).display(), "::check");
    assert_eq!(path(false, &[]).display(), "");
    assert_eq!(path(true, &[]).display(), "::");
}

#[test]
fn a_displayed_path_resolves_to_itself() {
    for text in ["check", "::check", "a::b::c", " a :: b ", "::std::vec", "crate::m::r#type"] {
        let resolved = SymbolicPath::resolve(text).unwrap();
        let shown = resolved.display();
        let again = SymbolicPath::resolve(&shown).unwrap();
        assert_eq!(again, resolved, "{:?}", text);
        assert!(again.same_as(&resolved));
        assert_eq!(again.display(), shown);
        let denoted: Vec<&str> = shown.trim_start_matches("::").split("::").collect();
        assert_eq!(denoted, resolved.segments);
    }
}

#[test]
fn a_clone_is_the_same_path() {
    let first = path(true, &["a", "b"]);
    let copy = first.clone();
    assert_eq!(copy, first);
    assert!(copy.same_as(&first));
}

#[test]
fn every_error_says_something_of_itself() {
    let io = ExpansionError::IoFailure(std::io::Error::new(
        std::io::ErrorKind::NotFound,
        "no such source",
    ));
    assert_eq!(io.message(), "no such source");
    let syntax = SymbolicPath::resolve("a::").unwrap_err();
    assert!(matches!(syntax, ExpansionError::SyntaxFailure(_)));
    assert!(!syntax.message().is_empty());
    assert_eq!(ExpansionError::InvocationFailure.message(), "macro expansion panicked");
}
