use aiken_lsp::ast::{
    CheckedModule, Definition, Expr, Function, Located, TypeInfo, ValueConstructor,
    ValueConstructorVariant,
};
use aiken_lsp::rename::{def_name, find_identifier_span, find_word_span, identifier_span_for_node, Location, SymbolTarget};
use aiken_lsp::server::{LspProject, Server};
use aiken_lsp::span::{Position, Range, Span};

const CODE: &str = "fn foo() {\n  foo\n}\n";

fn pos(line: u32, character: u32) -> Position {
    Position { line, character }
}

fn range(l1: u32, c1: u32, l2: u32, c2: u32) -> Range {
    Range { start: pos(l1, c1), end: pos(l2, c2) }
}

fn foo_fn() -> Definition {
    Definition::Fn(Function {
        location: Span { start: 0, end: 18 },
        name: "foo".to_string(),
        arguments: vec![],
        body: Expr::ErrorTerm { location: Span { start: 13, end: 16 } },
        return_annotated: false,
        return_type_text: "Void".to_string(),
    })
}

fn module(name: &str, package: &str, uri: Option<&str>) -> CheckedModule {
    CheckedModule {
        name: name.to_string(),
        code: CODE.to_string(),
        package: package.to_string(),
        definitions: vec![foo_fn()],
        doc_comments: vec![],
        comments: vec![],
        type_info: TypeInfo {
            name: name.to_string(),
            values: vec![],
            types: vec![],
            types_constructors: vec![],
        },
        uri: uri.map(|u| u.to_string()),
    }
}

fn server(modules: Vec<CheckedModule>) -> Server {
    Server {
        compiler: Some(LspProject {
            modules,
            importable_modules: vec![],
            own_package: "me".to_string(),
        }),
    }
}

fn target(def_module: Option<&str>) -> SymbolTarget {
    SymbolTarget {
        name: "foo".to_string(),
        def_module: def_module.map(|m| m.to_string()),
        def_span: Span { start: 0, end: 18 },
    }
}

fn var_node() -> Located {
    Located::Expression(Expr::Var {
        location: Span { start: 13, end: 16 },
        name: "foo".to_string(),
        constructor: ValueConstructor {
            variant: ValueConstructorVariant::LocalVariable,
            type_text: "fn() -> Void".to_string(),
            fn_return_text: Some("Void".to_string()),
        },
    })
}

#[test]
fn identifier_is_found_within_the_span() {
    let src = "let abc = abc";
    assert_eq!(find_identifier_span(src, Span { start: 0, end: 13 }, "abc"), Some(Span { start: 4, end: 7 }));
    assert_eq!(find_identifier_span(src, Span { start: 5, end: 13 }, "abc"), Some(Span { start: 10, end: 13 }));
    assert_eq!(find_identifier_span(src, Span { start: 0, end: 13 }, "xyz"), None);
    assert_eq!(find_identifier_span(src, Span { start: 0, end: 5 }, "abc"), None);
}

#[test]
fn identifier_span_law_on_a_value() {
    // The first occurrence of the name's bytes is taken, inside words too.
    let src = "bab ab";
    let s = find_identifier_span(src, Span { start: 0, end: 6 }, "ab").unwrap();
    assert_eq!(s, Span { start: 1, end: 3 });
    assert_eq!(&src[s.start..s.end], "ab");
    assert_eq!(find_identifier_span("foobar", Span { start: 0, end: 6 }, "foo"), Some(Span { start: 0, end: 3 }));
}

#[test]
fn word_span_law_on_a_value() {
    // The first whole identifier is taken: `ab` inside `bab` does not count.
    let src = "bab ab";
    let s = find_word_span(src, Span { start: 0, end: 6 }, "ab").unwrap();
    assert_eq!(s, Span { start: 4, end: 6 });
    assert_eq!(&src[s.start..s.end], "ab");
    assert_eq!(find_word_span(src, Span { start: 1, end: 3 }, "ab"), None);
    assert_eq!(find_word_span("foobar", Span { start: 0, end: 6 }, "foo"), None);
}

#[test]
fn function_name_is_not_found_in_its_keyword() {
    let def = Definition::Fn(Function {
        location: Span { start: 0, end: 12 },
        name: "f".to_string(),
        arguments: vec![],
        body: Expr::UInt { location: Span { start: 9, end: 10 } },
        return_annotated: false,
        return_type_text: "Int".to_string(),
    });
    assert_eq!(identifier_span_for_node(&Located::Definition(def), "fn f() { 1 }"), Some(Span { start: 3, end: 4 }));
}

#[test]
fn definition_names() {
    assert_eq!(def_name(&foo_fn()).map(|s| s.as_str()), Some("foo"));
    let use_def = Definition::Use {
        location: Span { start: 0, end: 3 },
        module: vec!["a".to_string()],
        unqualified: vec![],
    };
    assert_eq!(def_name(&use_def), None);
}

#[test]
fn identifier_of_nodes() {
    assert_eq!(identifier_span_for_node(&Located::Definition(foo_fn()), CODE), Some(Span { start: 3, end: 6 }));
    assert_eq!(identifier_span_for_node(&var_node(), CODE), Some(Span { start: 13, end: 16 }));
    assert_eq!(identifier_span_for_node(&Located::Argument, CODE), None);
}

#[test]
fn prepare_rename_gives_the_identifier_range() {
    let m = module("m", "me", Some("file:///m.ak"));
    let s = server(vec![module("m", "me", Some("file:///m.ak"))]);
    let t = target(Some("m"));
    let r = s.prepare_rename(Some(&m), Some(&t), Some(&Located::Definition(foo_fn())));
    assert_eq!(r, Some(range(0, 3, 0, 6)));
    let r = s.prepare_rename(Some(&m), Some(&t), Some(&var_node()));
    assert_eq!(r, Some(range(1, 2, 1, 5)));
    assert_eq!(s.prepare_rename(Some(&m), Some(&t), None), None);
    assert_eq!(s.prepare_rename(Some(&m), None, Some(&var_node())), None);
}

#[test]
fn prepare_rename_refuses_dependency_symbols() {
    let m = module("m", "me", Some("file:///m.ak"));
    let s = server(vec![module("dep/lib", "someone", Some("file:///lib.ak")), module("m", "me", None)]);
    let r = s.prepare_rename(Some(&m), Some(&target(Some("dep/lib"))), Some(&var_node()));
    assert_eq!(r, None);
    let none = Server { compiler: None };
    assert_eq!(none.prepare_rename(Some(&m), Some(&target(Some("m"))), Some(&var_node())), None);
}

#[test]
fn rename_edits_references_and_definition() {
    let m = module("m", "me", Some("file:///m.ak"));
    let s = server(vec![module("m", "me", Some("file:///m.ak"))]);
    let refs = vec![Location { uri: "file:///m.ak".to_string(), range: range(1, 2, 1, 5) }];
    let w = s.rename(Some(&m), Some(&target(Some("m"))), &refs, "bar".to_string()).unwrap();
    assert_eq!(w.changes.len(), 1);
    assert_eq!(w.changes[0].uri, "file:///m.ak");
    let ranges: Vec<Range> = w.changes[0].edits.iter().map(|e| e.range).collect();
    assert_eq!(ranges, vec![range(1, 2, 1, 5), range(0, 3, 0, 6)]);
    assert!(w.changes[0].edits.iter().all(|e| e.new_text == "bar"));
}

#[test]
fn rename_groups_edits_by_document() {
    let m = module("m", "me", Some("file:///m.ak"));
    let s = server(vec![module("m", "me", Some("file:///m.ak"))]);
    let refs = vec![
        Location { uri: "file:///a.ak".to_string(), range: range(0, 0, 0, 3) },
        Location { uri: "file:///b.ak".to_string(), range: range(2, 0, 2, 3) },
        Location { uri: "file:///a.ak".to_string(), range: range(4, 1, 4, 4) },
    ];
    let w = s.rename(Some(&m), Some(&target(None)), &refs, "baz".to_string()).unwrap();
    let uris: Vec<&str> = w.changes.iter().map(|d| d.uri.as_str()).collect();
    assert_eq!(uris, vec!["file:///a.ak", "file:///b.ak", "file:///m.ak"]);
    assert_eq!(w.changes[0].edits.len(), 2);
    assert_eq!(w.changes[0].edits[1].range, range(4, 1, 4, 4));
    assert_eq!(w.changes[2].edits[0].range, range(0, 3, 0, 6));
}

#[test]
fn rename_without_edits_or_of_dependency_is_none() {
    let m = module("m", "me", None);
    let s = server(vec![module("m", "me", None)]);
    assert!(s.rename(Some(&m), Some(&target(Some("m"))), &vec![], "x".to_string()).is_none());
    let s = server(vec![module("dep/lib", "someone", Some("file:///lib.ak"))]);
    let refs = vec![Location { uri: "file:///a.ak".to_string(), range: range(0, 0, 0, 3) }];
    assert!(s.rename(Some(&m), Some(&target(Some("dep/lib"))), &refs, "x".to_string()).is_none());
}
