use aiken_lsp::ast::annotation_follows_at;
use aiken_lsp::ast::{
    Annotation, Arg, CheckedModule, Definition, Expr, Function, Pattern, TypeInfo,
    ValueConstructor, ValueConstructorVariant,
};
use aiken_lsp::inlay_hints::{make_hint, InlayHint, InlayHintKind};
use aiken_lsp::server::Server;
use aiken_lsp::span::{Position, Range, Span};

// fn f(x) {
//   let y = x
//   y
// }
const CODE: &str = "fn f(x) {\n  let y = x\n  y\n}\n";

fn pos(line: u32, character: u32) -> Position {
    Position { line, character }
}

fn var(start: usize, end: usize, name: &str) -> Expr {
    Expr::Var {
        location: Span { start, end },
        name: name.to_string(),
        constructor: ValueConstructor {
            variant: ValueConstructorVariant::LocalVariable,
            type_text: "Int".to_string(),
            fn_return_text: None,
        },
    }
}

fn arg(start: usize, end: usize, annotated: bool, discarded: bool) -> Arg {
    Arg {
        location: Span { start, end },
        discarded,
        annotation: if annotated { Some(Annotation::Hole) } else { None },
        type_text: "Int".to_string(),
    }
}

fn function(args: Vec<Arg>, return_annotated: bool) -> Function {
    Function {
        location: Span { start: 0, end: 27 },
        name: "f".to_string(),
        arguments: args,
        body: Expr::Sequence {
            location: Span { start: 12, end: 25 },
            expressions: vec![
                Expr::Assignment {
                    location: Span { start: 12, end: 21 },
                    value: Box::new(var(20, 21, "x")),
                    pattern: Pattern::Var { location: Span { start: 16, end: 17 } },
                    annotated: false,
                    type_text: "Int".to_string(),
                },
                var(24, 25, "y"),
            ],
        },
        return_annotated,
        return_type_text: "Int".to_string(),
    }
}

fn module(definitions: Vec<Definition>) -> CheckedModule {
    CheckedModule {
        name: "m".to_string(),
        code: CODE.to_string(),
        package: "p".to_string(),
        definitions,
        doc_comments: vec![],
        comments: vec![],
        type_info: TypeInfo { name: "m".to_string(), values: vec![], types: vec![], types_constructors: vec![] },
        uri: Some("file:///m.ak".to_string()),
    }
}

fn whole() -> Range {
    Range { start: pos(0, 0), end: pos(3, 1) }
}

fn summary(hints: &[InlayHint]) -> Vec<(u32, u32, String)> {
    hints.iter().map(|h| (h.position.line, h.position.character, h.label.clone())).collect()
}

#[test]
fn hint_shape() {
    let h = make_hint(pos(2, 3), ": Int".to_string());
    assert_eq!(h.position, pos(2, 3));
    assert_eq!(h.label, ": Int");
    assert_eq!(h.kind, InlayHintKind::Type);
    assert!(h.padding_left);
    assert!(!h.padding_right);
}

#[test]
fn hints_for_arguments_return_and_bindings() {
    let m = module(vec![Definition::Fn(function(vec![arg(5, 6, false, false)], false))]);
    let server = Server { compiler: None };
    let hints = server.inlay_hints(Some(&m), whole()).unwrap();
    assert_eq!(
        summary(&hints),
        vec![
            (0, 6, ": Int".to_string()),
            (1, 2, "-> Int ".to_string()),
            (1, 7, ": Int".to_string()),
        ]
    );
}

#[test]
fn annotated_and_discarded_are_skipped() {
    let m = module(vec![Definition::Fn(function(
        vec![arg(5, 6, true, false), arg(5, 6, false, true)],
        true,
    ))]);
    let server = Server { compiler: None };
    let hints = server.inlay_hints(Some(&m), whole()).unwrap();
    assert_eq!(summary(&hints), vec![(1, 7, ": Int".to_string())]);
}

#[test]
fn definitions_outside_the_range_give_nothing() {
    let m = module(vec![Definition::Fn(function(vec![arg(5, 6, false, false)], false))]);
    let server = Server { compiler: None };
    // Requested range starts at the end of the definition.
    let after = Range { start: pos(3, 1), end: pos(3, 1) };
    assert!(server.inlay_hints(Some(&m), after).is_none());
    assert!(server.inlay_hints(None, whole()).is_none());
    let only_use = module(vec![Definition::Use {
        location: Span { start: 0, end: 3 },
        module: vec!["a".to_string()],
        unqualified: vec![],
    }]);
    assert!(server.inlay_hints(Some(&only_use), whole()).is_none());
}

#[test]
fn named_pattern_hint_follows_the_pattern_it_names() {
    // `let y as z = x`: the hint stands after the named pattern, as its location is.
    let mut f = function(vec![], true);
    if let Expr::Sequence { expressions, .. } = &mut f.body {
        if let Expr::Assignment { pattern, .. } = &mut expressions[0] {
            *pattern = Pattern::Assign {
                location: Span { start: 18, end: 19 },
                pattern: Box::new(Pattern::Var { location: Span { start: 16, end: 17 } }),
            };
        }
    }
    let m = module(vec![Definition::Fn(f)]);
    let hints = Server { compiler: None }.inlay_hints(Some(&m), whole()).unwrap();
    assert_eq!(summary(&hints), vec![(1, 7, ": Int".to_string())]);
}

#[test]
fn annotated_binding_gets_no_hint() {
    let mut f = function(vec![], true);
    if let Expr::Sequence { expressions, .. } = &mut f.body {
        if let Expr::Assignment { annotated, .. } = &mut expressions[0] {
            *annotated = true;
        }
    }
    let m = module(vec![Definition::Fn(f)]);
    assert!(Server { compiler: None }.inlay_hints(Some(&m), whole()).is_none());
}

#[test]
fn anonymous_function_hint_shows_its_return_type() {
    // fn f(x) {
    //   let y = fn() { x }
    //   y
    // } (spans of a lambda whose body starts at byte 20)
    let lambda = Expr::Fn {
        location: Span { start: 20, end: 21 },
        args: vec![],
        body: Box::new(var(20, 21, "x")),
        return_annotated: false,
        return_type_text: "Bool".to_string(),
    };
    let mut f = function(vec![], true);
    if let Expr::Sequence { expressions, .. } = &mut f.body {
        if let Expr::Assignment { value, annotated, .. } = &mut expressions[0] {
            *value = Box::new(lambda);
            *annotated = true;
        }
    }
    let m = module(vec![Definition::Fn(f)]);
    let hints = Server { compiler: None }.inlay_hints(Some(&m), whole()).unwrap();
    assert_eq!(summary(&hints), vec![(1, 10, "-> Bool ".to_string())]);
}

#[test]
fn annotation_is_read_from_the_source() {
    let src = "let y: Int = x\nlet z = x";
    assert!(annotation_follows_at(src, 5));
    assert!(!annotation_follows_at(src, 20));
    assert!(annotation_follows_at("let y \t: Int = x", 5));
    assert!(!annotation_follows_at("let y", 5));
    assert!(!annotation_follows_at("let y", 9));
}
