use aiken_lsp::ast::{CheckedModule, Definition, Expr, Function, RecordConstructor, TypeInfo};
use aiken_lsp::server::{LspProject, Server};
use aiken_lsp::span::{Position, Range, Span};
use aiken_lsp::workspace_symbol::{collect_definition_symbols, matches_query, SymbolInformation, SymbolKind};

// fn fooBar() {
//   1
// }
// type Color {
//   Red
// }
const CODE: &str = "fn fooBar() {\n  1\n}\ntype Color {\n  Red\n}\n";

fn range(l1: u32, c1: u32, l2: u32, c2: u32) -> Range {
    Range { start: Position { line: l1, character: c1 }, end: Position { line: l2, character: c2 } }
}

fn definitions() -> Vec<Definition> {
    vec![
        Definition::Fn(Function {
            location: Span { start: 0, end: 19 },
            name: "fooBar".to_string(),
            arguments: vec![],
            body: Expr::UInt { location: Span { start: 16, end: 17 } },
            return_annotated: false,
            return_type_text: "Int".to_string(),
        }),
        Definition::DataType {
            location: Span { start: 20, end: 40 },
            name: "Color".to_string(),
            constructors: vec![RecordConstructor {
                location: Span { start: 35, end: 38 },
                name: "Red".to_string(),
                field_annotations: vec![],
            }],
        },
        Definition::Use { location: Span { start: 0, end: 2 }, module: vec!["x".to_string()], unqualified: vec![] },
    ]
}

fn module(uri: Option<&str>) -> CheckedModule {
    CheckedModule {
        name: "m".to_string(),
        code: CODE.to_string(),
        package: "p".to_string(),
        definitions: definitions(),
        doc_comments: vec![],
        comments: vec![],
        type_info: TypeInfo { name: "m".to_string(), values: vec![], types: vec![], types_constructors: vec![] },
        uri: uri.map(|u| u.to_string()),
    }
}

fn server(modules: Vec<CheckedModule>) -> Server {
    Server { compiler: Some(LspProject { modules, importable_modules: vec![], own_package: "p".to_string() }) }
}

fn names(symbols: &[SymbolInformation]) -> Vec<(String, SymbolKind)> {
    symbols.iter().map(|s| (s.name.clone(), s.kind)).collect()
}

#[test]
fn query_matching_ignores_case() {
    assert!(matches_query("FooBar", "foo"));
    assert!(matches_query("FooBar", "OBA"));
    assert!(matches_query("foobar", "FOOBAR"));
    assert!(matches_query("abc", ""));
    assert!(!matches_query("abc", "d"));
    assert!(!matches_query("", "a"));
}

#[test]
fn empty_query_lists_every_symbol() {
    let s = server(vec![module(Some("file:///m.ak"))]);
    let symbols = s.workspace_symbol(String::new()).unwrap();
    assert_eq!(
        names(&symbols),
        vec![
            ("fooBar".to_string(), SymbolKind::Function),
            ("Color".to_string(), SymbolKind::Class),
            ("Red".to_string(), SymbolKind::Constructor),
        ]
    );
    assert_eq!(symbols[0].range, range(0, 0, 2, 1));
    assert_eq!(symbols[1].range, range(3, 0, 5, 1));
    assert_eq!(symbols[2].range, range(4, 2, 4, 5));
    assert!(symbols.iter().all(|s| s.uri == "file:///m.ak"));
}

#[test]
fn query_selects_symbols() {
    let s = server(vec![module(Some("file:///m.ak"))]);
    assert_eq!(names(&s.workspace_symbol("BAR".to_string()).unwrap()), vec![("fooBar".to_string(), SymbolKind::Function)]);
    assert_eq!(names(&s.workspace_symbol("red".to_string()).unwrap()), vec![("Red".to_string(), SymbolKind::Constructor)]);
    assert!(s.workspace_symbol("zzz".to_string()).is_none());
}

#[test]
fn symbols_of_all_modules_in_order() {
    let s = server(vec![module(Some("file:///a.ak")), module(Some("file:///b.ak"))]);
    let symbols = s.workspace_symbol("o".to_string()).unwrap();
    let uris: Vec<&str> = symbols.iter().map(|s| s.uri.as_str()).collect();
    assert_eq!(uris, vec!["file:///a.ak", "file:///a.ak", "file:///b.ak", "file:///b.ak"]);
}

#[test]
fn modules_without_address_are_skipped() {
    assert!(Server { compiler: None }.workspace_symbol(String::new()).is_none());
    let s = server(vec![module(None), module(Some("file:///a.ak"))]);
    let symbols = s.workspace_symbol("foo".to_string()).unwrap();
    assert_eq!(names(&symbols), vec![("fooBar".to_string(), SymbolKind::Function)]);
    assert_eq!(symbols[0].uri, "file:///a.ak");
    assert!(server(vec![module(None)]).workspace_symbol(String::new()).is_none());
}

#[test]
fn definition_symbols_are_collected() {
    let mut out = Vec::new();
    for d in definitions() {
        collect_definition_symbols(&d, "", &mut out);
    }
    let got: Vec<(String, SymbolKind, Span)> = out.iter().map(|e| (e.name.clone(), e.kind, e.span)).collect();
    assert_eq!(
        got,
        vec![
            ("fooBar".to_string(), SymbolKind::Function, Span { start: 0, end: 19 }),
            ("Color".to_string(), SymbolKind::Class, Span { start: 20, end: 40 }),
            ("Red".to_string(), SymbolKind::Constructor, Span { start: 35, end: 38 }),
        ]
    );
}

#[test]
fn ascii_matching_ignores_case_and_narrows() {
    assert_eq!(matches_query("HelloWorld", "lowo"), matches_query("HELLOWORLD", "lowo"));
    assert!(matches_query("HelloWorld", "LOWO"));
    assert!(matches_query("HelloWorld", "owo"));
    assert!(matches_query("HelloWorld", "w"));
    assert!(!matches_query("HelloWorld", "lowz"));
}
