use proc_macro2::TokenStream;
use runtime_macros::{
    emulate_attributelike_macro_expansion, emulate_derive_macro_expansion,
    emulate_functionlike_macro_expansion, expand_attribute_macros, expand_derive_macros,
    expand_functionlike_macros, ExpansionError, SymbolicPath,
};
use std::cell::RefCell;

fn tokens(text: &str) -> String {
    text.parse::<TokenStream>().unwrap().to_string()
}

fn squeezed(text: &str) -> String {
    text.chars().filter(|c| !c.is_whitespace()).collect()
}

#[test]
fn two_invocations_of_one_target_run_in_document_order() {
    let seen: RefCell<Vec<String>> = RefCell::new(Vec::new());
    let source = "fn f() { check!(1 + 1 == 2); check!(false, \"boom\"); }";
    let result = emulate_functionlike_macro_expansion(
        source,
        &[("check", |payload: TokenStream| {
            seen.borrow_mut().push(payload.to_string());
            Some(TokenStream::new())
        })],
    );
    assert!(result.is_ok());
    assert_eq!(*seen.borrow(), vec![tokens("1 + 1 == 2"), tokens("false, \"boom\"")]);
}

#[test]
fn a_target_that_gives_up_ends_the_run() {
    let seen: RefCell<Vec<String>> = RefCell::new(Vec::new());
    let source = "fn f(){ check!(1+1==2); check!(fail_me); check!(never_reached); }";
    let result = emulate_functionlike_macro_expansion(
        source,
        &[("check", |payload: TokenStream| {
            seen.borrow_mut().push(payload.to_string());
            if payload.to_string() == "fail_me" {
                None
            } else {
                Some(payload)
            }
        })],
    );
    assert!(matches!(result, Err(ExpansionError::InvocationFailure)));
    assert_eq!(*seen.borrow(), vec![tokens("1+1==2"), tokens("fail_me")]);
}

#[test]
fn a_source_without_registered_invocations_runs_nothing() {
    let count = RefCell::new(0usize);
    let source = "fn f() { println!(\"hello\"); let v = vec![1, 2, 3]; }\nstruct S;";
    let result = emulate_functionlike_macro_expansion(
        source,
        &[("check", |payload: TokenStream| {
            *count.borrow_mut() += 1;
            Some(payload)
        })],
    );
    assert!(result.is_ok());
    assert_eq!(*count.borrow(), 0);
}

#[test]
fn an_empty_source_succeeds() {
    let count = RefCell::new(0usize);
    let result = emulate_functionlike_macro_expansion(
        "",
        &[("check", |payload: TokenStream| {
            *count.borrow_mut() += 1;
            Some(payload)
        })],
    );
    assert!(result.is_ok());
    assert_eq!(*count.borrow(), 0);
}

#[test]
fn every_invocation_is_expanded_once() {
    let seen: RefCell<Vec<String>> = RefCell::new(Vec::new());
    let source = "
        check!(a);
        fn f() {
            other!(skipped);
            check!(b);
            let x = { check!(c) };
            if check!(d) { check!(e); }
        }
        mod inner { fn g() { check![f]; check! { g } } }
        impl S { fn h(&self) { check!(h); } }
    ";
    let result = emulate_functionlike_macro_expansion(
        source,
        &[("check", |payload: TokenStream| {
            seen.borrow_mut().push(payload.to_string());
            Some(payload)
        })],
    );
    assert!(result.is_ok());
    assert_eq!(*seen.borrow(), vec!["a", "b", "c", "d", "e", "f", "g", "h"]);
}

#[test]
fn a_different_spelling_of_the_path_is_passed_over() {
    let count = RefCell::new(0usize);
    let source = "fn f() { helpers::check!(1); ::check!(2); crate::check!(3); r#check!(4); }";
    let result = emulate_functionlike_macro_expansion(
        source,
        &[("check", |payload: TokenStream| {
            *count.borrow_mut() += 1;
            Some(payload)
        })],
    );
    assert!(result.is_ok());
    assert_eq!(*count.borrow(), 0);
}

#[test]
fn a_qualified_path_matches_its_own_spelling() {
    let seen: RefCell<Vec<String>> = RefCell::new(Vec::new());
    let source = "fn f() { helpers::check!(1); check!(2); ::helpers::check!(3); helpers :: check!(4); }";
    let result = emulate_functionlike_macro_expansion(
        source,
        &[("helpers::check", |payload: TokenStream| {
            seen.borrow_mut().push(payload.to_string());
            Some(payload)
        })],
    );
    assert!(result.is_ok());
    assert_eq!(*seen.borrow(), vec!["1", "4"]);
}

#[test]
fn targets_under_one_path_all_run_in_registration_order() {
    let seen: RefCell<Vec<String>> = RefCell::new(Vec::new());
    let record = |label: &'static str| {
        let seen = &seen;
        move |payload: TokenStream| {
            seen.borrow_mut().push(format!("{}:{}", label, payload));
            Some(payload)
        }
    };
    let source = "fn f() { check!(1); check!(2); }";
    let result = emulate_functionlike_macro_expansion(
        source,
        &[("check", record("first")), ("other", record("unused")), ("check", record("second"))],
    );
    assert!(result.is_ok());
    assert_eq!(*seen.borrow(), vec!["first:1", "second:1", "first:2", "second:2"]);
}

#[test]
fn a_source_that_does_not_parse_is_a_syntax_failure() {
    let count = RefCell::new(0usize);
    let result = emulate_functionlike_macro_expansion(
        "fn f( { check!(1); }",
        &[("check", |payload: TokenStream| {
            *count.borrow_mut() += 1;
            Some(payload)
        })],
    );
    assert!(matches!(result, Err(ExpansionError::SyntaxFailure(_))));
    assert_eq!(*count.borrow(), 0);
}

#[test]
fn a_registered_path_that_does_not_parse_is_a_syntax_failure() {
    let count = RefCell::new(0usize);
    let counting = |payload: TokenStream| {
        *count.borrow_mut() += 1;
        Some(payload)
    };
    for bad in ["", "check!", "a::", "1check", "a b"] {
        let result = emulate_functionlike_macro_expansion(
            "fn f() { check!(1); }",
            &[("check", &counting), (bad, &counting)],
        );
        assert!(matches!(result, Err(ExpansionError::SyntaxFailure(_))), "{:?}", bad);
    }
    assert_eq!(*count.borrow(), 0);
}

#[test]
fn a_derive_hands_the_whole_declaration_to_the_registered_name_only() {
    let seen_a: RefCell<Vec<String>> = RefCell::new(Vec::new());
    let seen_b: RefCell<Vec<String>> = RefCell::new(Vec::new());
    let source = "#[derive(A, B)] struct S { x: u8 }";
    let result = emulate_derive_macro_expansion(
        source,
        &[("B", |declaration: TokenStream| {
            seen_b.borrow_mut().push(declaration.to_string());
            Some(TokenStream::new())
        })],
    );
    assert!(result.is_ok());
    assert_eq!(*seen_b.borrow(), vec![tokens("#[derive(A, B)] struct S { x: u8 }")]);
    let result = emulate_derive_macro_expansion(
        source,
        &[("C", |declaration: TokenStream| {
            seen_a.borrow_mut().push(declaration.to_string());
            Some(TokenStream::new())
        })],
    );
    assert!(result.is_ok());
    assert!(seen_a.borrow().is_empty());
}

#[test]
fn derives_are_found_on_every_kind_of_declaration_and_in_nested_ones() {
    let seen: RefCell<Vec<String>> = RefCell::new(Vec::new());
    let source = "
        #[derive(Mark)] struct A;
        #[derive(Other, Mark)] enum B { X }
        #[derive(Mark)] union C { x: u8 }
        mod m {
            #[derive(Mark)] pub struct D;
            fn f() { #[derive(Mark)] struct E; }
        }
        #[derive(Mark)] fn g() {}
        #[derive(Mark)] const H: u8 = 0;
        #[derive(Mark)] type I = u8;
        #[derive(Mark)] trait J {}
        #[derive(Mark)] impl A {}
        #[derive(Mark)] use std::fmt;
        #[derive(Mark)] static K: u8 = 0;
        #[derive(Mark)] extern crate alloc;
        #[derive(Mark)] extern \"C\" {}
        #[derive(Mark)] mac!();
    ";
    let result = emulate_derive_macro_expansion(
        source,
        &[("Mark", |declaration: TokenStream| {
            let text = declaration.to_string();
            let after = text.split("]").nth(1).unwrap().trim().to_string();
            seen.borrow_mut().push(after.chars().take(12).collect::<String>().trim().to_string());
            Some(TokenStream::new())
        })],
    );
    assert!(result.is_ok());
    assert_eq!(
        *seen.borrow(),
        vec![
            "struct A ;",
            "enum B { X }",
            "union C { x",
            "pub struct D",
            "struct E ;",
            "fn g () { }",
            "const H : u8",
            "type I = u8",
            "trait J { }",
            "impl A { }",
            "use std :: f",
            "static K : u",
            "extern crate",
            "extern \"C\" {",
            "mac ! () ;",
        ]
    );
}

#[test]
fn only_a_plain_derive_list_counts_as_a_derive() {
    let seen: RefCell<Vec<String>> = RefCell::new(Vec::new());
    let source = "
        #[derive(Mark, Mark)] struct Twice;
        #[my::derive(Mark)] struct Qualified;
        #[derive = \"Mark\"] struct NameValue;
        #[derive] struct Bare;
        #[deriving(Mark)] struct OtherName;
        #[derive(Mark(x), \"Mark\", other::Mark, Mark = \"x\")] struct NotBareNames;
        #[derive(Other)] #[derive(Mark)] struct SecondList;
    ";
    let result = emulate_derive_macro_expansion(
        source,
        &[("Mark", |declaration: TokenStream| {
            let text = declaration.to_string();
            seen.borrow_mut().push(text.split_whitespace().rev().nth(1).unwrap().to_string());
            Some(TokenStream::new())
        })],
    );
    assert!(result.is_ok());
    assert_eq!(*seen.borrow(), vec!["Twice", "Twice", "SecondList"]);
}

#[test]
fn a_derive_target_that_gives_up_ends_the_run() {
    let count = RefCell::new(0usize);
    let source = "#[derive(Mark)] struct A; #[derive(Mark)] struct B; #[derive(Mark)] struct C;";
    let result = emulate_derive_macro_expansion(
        source,
        &[("Mark", |declaration: TokenStream| {
            *count.borrow_mut() += 1;
            if declaration.to_string().contains("struct B") {
                None
            } else {
                Some(declaration)
            }
        })],
    );
    assert!(matches!(result, Err(ExpansionError::InvocationFailure)));
    assert_eq!(*count.borrow(), 2);
}

#[test]
fn an_attribute_hands_over_its_arguments_and_the_declaration() {
    let seen: RefCell<Vec<(String, String)>> = RefCell::new(Vec::new());
    let source = "
        #[counted(by = 2)] struct A;
        #[other] #[counted] fn f() {}
        mod m { #![counted(inner)] #[helpers::counted] struct Skipped; }
    ";
    let result = emulate_attributelike_macro_expansion(
        source,
        &[("counted", |arguments: TokenStream, declaration: TokenStream| {
            seen.borrow_mut().push(
                (squeezed(&arguments.to_string()), squeezed(&declaration.to_string())),
            );
            Some(declaration)
        })],
    );
    assert!(result.is_ok());
    assert_eq!(
        *seen.borrow(),
        vec![
            (squeezed("by = 2"), squeezed("#[counted(by = 2)] struct A;")),
            (squeezed(""), squeezed("#[other] #[counted] fn f() {}")),
            (
                squeezed("inner"),
                squeezed("mod m { #![counted(inner)] #[helpers::counted] struct Skipped; }")
            ),
        ]
    );
}

#[test]
fn an_attribute_target_that_gives_up_ends_the_run() {
    let count = RefCell::new(0usize);
    let source = "#[counted] struct A; #[counted(stop)] struct B; #[counted] struct C;";
    let result = emulate_attributelike_macro_expansion(
        source,
        &[("counted", |arguments: TokenStream, declaration: TokenStream| {
            *count.borrow_mut() += 1;
            if arguments.is_empty() {
                Some(declaration)
            } else {
                None
            }
        })],
    );
    assert!(matches!(result, Err(ExpansionError::InvocationFailure)));
    assert_eq!(*count.borrow(), 2);
}

#[test]
fn attribute_and_derive_runs_report_syntax_failures() {
    let unary = |declaration: TokenStream| Some(declaration);
    let binary = |_arguments: TokenStream, declaration: TokenStream| Some(declaration);
    assert!(matches!(
        emulate_derive_macro_expansion("struct {", &[("Mark", unary)]),
        Err(ExpansionError::SyntaxFailure(_))
    ));
    assert!(matches!(
        emulate_derive_macro_expansion("struct S;", &[("Mark::", unary)]),
        Err(ExpansionError::SyntaxFailure(_))
    ));
    assert!(matches!(
        emulate_attributelike_macro_expansion("struct {", &[("counted", binary)]),
        Err(ExpansionError::SyntaxFailure(_))
    ));
    assert!(matches!(
        emulate_attributelike_macro_expansion("struct S;", &[("::", binary)]),
        Err(ExpansionError::SyntaxFailure(_))
    ));
}

#[test]
fn no_targets_means_nothing_to_run() {
    let none: [(&str, fn(TokenStream) -> Option<TokenStream>); 0] = [];
    assert!(emulate_functionlike_macro_expansion("fn f() { check!(1); }", &none).is_ok());
    assert!(emulate_derive_macro_expansion("#[derive(A)] struct S;", &none).is_ok());
}

#[test]
fn attribute_arguments_are_what_stands_between_the_delimiters() {
    let seen: RefCell<Vec<String>> = RefCell::new(Vec::new());
    let result = emulate_attributelike_macro_expansion(
        "#[a(x, y)] struct S;",
        &[("a", |arguments: TokenStream, declaration: TokenStream| {
            seen.borrow_mut().push(arguments.to_string());
            Some(declaration)
        })],
    );
    assert!(result.is_ok());
    assert_eq!(*seen.borrow(), vec![tokens("x, y")]);
}

#[test]
fn a_target_that_always_gives_up_is_called_once() {
    let count = RefCell::new(0usize);
    let result = emulate_attributelike_macro_expansion(
        "#[a] struct S; #[a] struct T;",
        &[("a", |_arguments: TokenStream, declaration: TokenStream| {
            *count.borrow_mut() += 1;
            if declaration.is_empty() {
                Some(declaration)
            } else {
                None
            }
        })],
    );
    assert!(matches!(result, Err(ExpansionError::InvocationFailure)));
    assert_eq!(*count.borrow(), 1);
}

#[test]
fn a_literal_with_a_letter_before_it_is_two_tokens() {
    assert!(matches!(
        SymbolicPath::resolve("A<c\"x\">"),
        Err(ExpansionError::SyntaxFailure(_))
    ));
    let count = RefCell::new(0usize);
    let counting = |payload: TokenStream| {
        *count.borrow_mut() += 1;
        Some(payload)
    };
    let result = emulate_functionlike_macro_expansion("fn f() { g(c\"x\"); }", &[("g", &counting)]);
    assert!(matches!(result, Err(ExpansionError::SyntaxFailure(_))));
    let result = emulate_derive_macro_expansion("fn f() { g(c\"x\"); }", &[("g", &counting)]);
    assert!(matches!(result, Err(ExpansionError::SyntaxFailure(_))));
    let result =
        emulate_functionlike_macro_expansion("fn f() { check!(c\"x\", cr#\"y\"#); }", &[("check", &counting)]);
    assert!(result.is_ok());
    assert_eq!(*count.borrow(), 1);
}

#[test]
fn an_attribute_with_an_unusual_literal_is_handed_over_as_written() {
    let seen: RefCell<Vec<String>> = RefCell::new(Vec::new());
    let source = "#[a(c\"x\")] struct S; mod m { #[a(1, 2.5e3, b'q', \"s\", r#\"t\"#)] struct T; }";
    let result = emulate_attributelike_macro_expansion(
        source,
        &[("a", |arguments: TokenStream, declaration: TokenStream| {
            seen.borrow_mut().push(arguments.to_string());
            Some(declaration)
        })],
    );
    assert!(result.is_ok());
    assert_eq!(*seen.borrow(), vec![tokens("c\"x\""), tokens("1, 2.5e3, b'q', \"s\", r#\"t\"#")]);
    let count = RefCell::new(0usize);
    let result = emulate_derive_macro_expansion(
        "#[a(c\"x\")] #[derive(c\"x\")] #[derive(Mark)] struct S;",
        &[("Mark", |declaration: TokenStream| {
            *count.borrow_mut() += 1;
            Some(declaration)
        })],
    );
    assert!(result.is_ok());
    assert_eq!(*count.borrow(), 1);
}

#[test]
fn the_entry_points_for_total_targets_do_the_same() {
    let seen: RefCell<Vec<String>> = RefCell::new(Vec::new());
    let unary = |payload: TokenStream| {
        seen.borrow_mut().push(payload.to_string());
        if payload.to_string() == "stop" {
            None
        } else {
            Some(payload)
        }
    };
    let source = "#[derive(Mark)] struct S; fn f() { check!(1); check!(stop); check!(3); }";
    assert!(matches!(
        expand_functionlike_macros(source, &[("check", &unary)]),
        Err(ExpansionError::InvocationFailure)
    ));
    assert_eq!(*seen.borrow(), vec!["1", "stop"]);
    seen.borrow_mut().clear();
    assert!(expand_derive_macros(source, &[("Mark", &unary)]).is_ok());
    assert_eq!(*seen.borrow(), vec![tokens("#[derive(Mark)] struct S;")]);
    assert!(matches!(
        expand_derive_macros("struct {", &[("Mark", &unary)]),
        Err(ExpansionError::SyntaxFailure(_))
    ));
    assert!(matches!(
        expand_functionlike_macros(source, &[("check!", &unary)]),
        Err(ExpansionError::SyntaxFailure(_))
    ));
    let pairs: RefCell<Vec<(String, String)>> = RefCell::new(Vec::new());
    let result = expand_attribute_macros(
        "#[a(x, y)] struct S;",
        &[("a", |arguments: TokenStream, declaration: TokenStream| {
            pairs.borrow_mut().push((arguments.to_string(), declaration.to_string()));
            Some(declaration)
        })],
    );
    assert!(result.is_ok());
    assert_eq!(*pairs.borrow(), vec![(tokens("x, y"), tokens("#[a(x, y)] struct S;"))]);
}
