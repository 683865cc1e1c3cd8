use aiken_lsp::ast::{
    CheckedModule, Definition, Expr, Field, FieldMap, Function, Located, ScopeValue, TypeInfo,
    ValueConstructor, ValueConstructorVariant,
};
use aiken_lsp::completion::values_are_bounded;
use aiken_lsp::inlay_hints::inlay_hints_ready;
use aiken_lsp::rename::{definition_site_is_ready, node_ready, span_is_sliceable, SymbolTarget};
use aiken_lsp::semantic_tokens::semantic_tokens_resolvable;
use aiken_lsp::server::LspProject;
use aiken_lsp::signature_help::position_fits_in;
use aiken_lsp::span::{is_resolvable, LineNumbers, Position, Range, Span};
use aiken_lsp::server::Server;
use aiken_lsp::workspace_symbol::symbols_ready;

fn sp(start: usize, end: usize) -> Span {
    Span { start, end }
}

fn function(location: Span, body: Expr) -> Definition {
    Definition::Fn(Function {
        location,
        name: "f".to_string(),
        arguments: vec![],
        body,
        return_annotated: false,
        return_type_text: "Int".to_string(),
    })
}

fn module(code: &str, definitions: Vec<Definition>) -> CheckedModule {
    CheckedModule {
        name: "m".to_string(),
        code: code.to_string(),
        package: "p".to_string(),
        definitions,
        doc_comments: vec![],
        comments: vec![],
        type_info: TypeInfo { name: "m".to_string(), values: vec![], types: vec![], types_constructors: vec![] },
        uri: Some("file:///m.ak".to_string()),
    }
}

fn whole() -> Range {
    Range { start: Position { line: 0, character: 0 }, end: Position { line: 0, character: 2 } }
}

#[test]
fn line_table_placement() {
    // On a text without line breaks only its first byte has a line.
    let one_line = LineNumbers::new("ab");
    assert!(is_resolvable(&one_line, 0));
    assert!(!is_resolvable(&one_line, 1));
    let two_lines = LineNumbers::new("x\ny");
    assert!(is_resolvable(&two_lines, 1));
    assert!(is_resolvable(&two_lines, 2));
    assert!(!is_resolvable(&two_lines, 3));
    assert!(two_lines.byte_index_fits(1, 10));
    assert!(!two_lines.byte_index_fits(1, usize::MAX));
    assert!(two_lines.byte_index_fits(7, usize::MAX));
}

#[test]
fn semantic_tokens_need_placed_marks() {
    assert!(semantic_tokens_resolvable(&module("fn", vec![])));
    let m = module("fn f() { 1 }", vec![function(sp(0, 12), Expr::UInt { location: sp(9, 10) })]);
    assert!(!semantic_tokens_resolvable(&m));
    let m = module("fn f() {\n  1\n}\n", vec![function(sp(0, 14), Expr::UInt { location: sp(11, 12) })]);
    assert!(semantic_tokens_resolvable(&m));
}

#[test]
fn inlay_hints_need_placed_hints() {
    let m = module("fn f() { 1 }", vec![function(sp(0, 12), Expr::UInt { location: sp(9, 10) })]);
    // The return hint would stand at byte 9, which has no line.
    assert!(!inlay_hints_ready(&m, whole()));
    let m = module("fn f() {\n  1\n}\n", vec![function(sp(0, 14), Expr::UInt { location: sp(11, 12) })]);
    assert!(inlay_hints_ready(&m, whole()));
}

#[test]
fn symbols_need_placed_matches() {
    let good = || module("fn f() {\n  1\n}\n", vec![function(sp(0, 14), Expr::UInt { location: sp(11, 12) })]);
    let bad = || module("fn f() { 1 }", vec![function(sp(3, 12), Expr::UInt { location: sp(9, 10) })]);
    assert!(symbols_ready(&vec![], ""));
    assert!(symbols_ready(&vec![good()], ""));
    assert!(!symbols_ready(&vec![good(), bad()], ""));
    // Only symbols that match the query are placed.
    assert!(symbols_ready(&vec![good(), bad()], "zzz"));
    // Modules without an address are not placed.
    let mut unaddressed = bad();
    unaddressed.uri = None;
    assert!(symbols_ready(&vec![good(), unaddressed], ""));
    let server = Server {
        compiler: Some(LspProject { modules: vec![good(), bad()], importable_modules: vec![], own_package: "p".to_string() }),
    };
    assert!(server.workspace_symbol_checked(String::new()).is_none());
    let answer = server.workspace_symbol_checked("zzz".to_string()).unwrap();
    assert!(answer.is_none());
    let server = Server {
        compiler: Some(LspProject { modules: vec![good()], importable_modules: vec![], own_package: "p".to_string() }),
    };
    let answer = server.workspace_symbol_checked("F".to_string()).unwrap().unwrap();
    assert_eq!(answer.len(), 1);
    assert_eq!(answer[0].name, "f");
}

#[test]
fn slicing_follows_character_boundaries() {
    let src = "h\u{e9}llo";
    assert!(span_is_sliceable(src, sp(0, 1)));
    assert!(span_is_sliceable(src, sp(1, 3)));
    assert!(!span_is_sliceable(src, sp(0, 2)));
    assert!(!span_is_sliceable(src, sp(2, 1)));
    assert!(!span_is_sliceable(src, sp(0, 9)));
}

#[test]
fn rename_inputs_need_sliceable_spans() {
    let code = "fn foo() {\n  foo\n}\n";
    let def = function(sp(0, 18), Expr::ErrorTerm { location: sp(13, 16) });
    let renamed = Definition::Fn(Function {
        location: sp(0, 18),
        name: "foo".to_string(),
        arguments: vec![],
        body: Expr::ErrorTerm { location: sp(13, 16) },
        return_annotated: false,
        return_type_text: "Void".to_string(),
    });
    assert!(node_ready(code, &Located::Definition(def)));
    assert!(node_ready(code, &Located::Definition(renamed)));
    let outside = Located::Expression(Expr::Var {
        location: sp(13, 40),
        name: "foo".to_string(),
        constructor: ValueConstructor {
            variant: ValueConstructorVariant::LocalVariable,
            type_text: "Int".to_string(),
            fn_return_text: None,
        },
    });
    assert!(!node_ready(code, &outside));
    assert!(node_ready(code, &Located::Argument));

    let m = module(code, vec![]);
    let project = LspProject { modules: vec![module(code, vec![])], importable_modules: vec![], own_package: "p".to_string() };
    let target = SymbolTarget { name: "foo".to_string(), def_module: None, def_span: sp(0, 18) };
    assert!(definition_site_is_ready(&project, &m, &target));
    let target = SymbolTarget { name: "foo".to_string(), def_module: None, def_span: sp(0, 80) };
    assert!(!definition_site_is_ready(&project, &m, &target));
    let target = SymbolTarget { name: "foo".to_string(), def_module: Some("other".to_string()), def_span: sp(0, 80) };
    assert!(definition_site_is_ready(&project, &m, &target));

    let server = Server { compiler: Some(project) };
    let far = SymbolTarget { name: "foo".to_string(), def_module: None, def_span: sp(0, 80) };
    assert!(!server.rename_is_ready(Some(&m), Some(&far)));
    assert!(server.rename_is_ready(None, Some(&far)));
    assert!(!server.prepare_rename_is_ready(Some(&m), Some(&far), Some(&outside)));
    assert!(server.prepare_rename_is_ready(Some(&m), None, Some(&outside)));
    // A symbol of a dependency is refused before its identifier is searched.
    let dep = Server {
        compiler: Some(LspProject {
            modules: vec![CheckedModule { package: "other".to_string(), name: "dep".to_string(), ..module(code, vec![]) }],
            importable_modules: vec![],
            own_package: "p".to_string(),
        }),
    };
    let from_dep = SymbolTarget { name: "foo".to_string(), def_module: Some("dep".to_string()), def_span: sp(0, 80) };
    assert!(dep.rename_is_ready(Some(&m), Some(&from_dep)));
    assert!(dep.prepare_rename_is_ready(Some(&m), Some(&from_dep), Some(&outside)));
}

#[test]
fn cursor_offsets_fit() {
    let m = module("fn f() {\n  1\n}\n", vec![]);
    assert!(position_fits_in(&m, 1, 2));
    assert!(position_fits_in(&m, 10, u32::MAX));
}

#[test]
fn argument_positions_are_bounded() {
    let value = |index: usize| ScopeValue {
        name: "f".to_string(),
        constructor: ValueConstructor {
            variant: ValueConstructorVariant::ModuleFn {
                name: "f".to_string(),
                arity: 1,
                field_map: Some(FieldMap { fields: vec![Field { label: "a".to_string(), index }] }),
            },
            type_text: "fn(Int) -> Int".to_string(),
            fn_return_text: Some("Int".to_string()),
        },
    };
    assert!(values_are_bounded(&vec![]));
    assert!(values_are_bounded(&vec![value(0)]));
    assert!(!values_are_bounded(&vec![value(0), value(usize::MAX - 1)]));
}
