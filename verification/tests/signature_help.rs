use aiken_lsp::ast::{
    CallArg, CheckedModule, Definition, Expr, Field, Function, ModuleValueConstructor, TypeInfo,
    ValueConstructor, ValueConstructorVariant,
};
use aiken_lsp::signature_help::{
    build_fn_signature, build_parameters, build_signature, count_args_before_cursor,
    find_call_in_expr, format_return_type, signature_help, CallTarget,
};
use aiken_lsp::span::Span;

// fn g() {
//   f(1, 2)
// }
const CODE: &str = "fn g() {\n  f(1, 2)\n}\n";

fn sp(start: usize, end: usize) -> Span {
    Span { start, end }
}

fn uint(start: usize, end: usize) -> Expr {
    Expr::UInt { location: sp(start, end) }
}

fn call_arg(start: usize, end: usize) -> CallArg {
    CallArg { location: sp(start, end), value: uint(start, end) }
}

fn fn_var(name: &str, arity: usize, fields: Option<Vec<Field>>) -> Expr {
    Expr::Var {
        location: sp(11, 12),
        name: name.to_string(),
        constructor: ValueConstructor {
            variant: ValueConstructorVariant::ModuleFn {
                name: name.to_string(),
                arity,
                field_map: fields.map(|fields| aiken_lsp::ast::FieldMap { fields }),
            },
            type_text: "fn(Int, Int) -> Bool".to_string(),
            fn_return_text: Some("Bool".to_string()),
        },
    }
}

fn call(fun: Expr) -> Expr {
    Expr::Call { location: sp(11, 18), fun: Box::new(fun), args: vec![call_arg(13, 14), call_arg(16, 17)] }
}

fn module(body: Expr) -> CheckedModule {
    CheckedModule {
        name: "m".to_string(),
        code: CODE.to_string(),
        package: "p".to_string(),
        definitions: vec![Definition::Fn(Function {
            location: sp(0, 20),
            name: "g".to_string(),
            arguments: vec![],
            body,
            return_annotated: false,
            return_type_text: "Bool".to_string(),
        })],
        doc_comments: vec![],
        comments: vec![],
        type_info: TypeInfo { name: "m".to_string(), values: vec![], types: vec![], types_constructors: vec![] },
        uri: None,
    }
}

fn field(label: &str, index: usize) -> Field {
    Field { label: label.to_string(), index }
}

#[test]
fn return_type_text() {
    assert_eq!(format_return_type(&"fn(Int) -> Bool".to_string(), &Some("Bool".to_string())), "Bool");
    assert_eq!(format_return_type(&"Int".to_string(), &None), "Int");
}

#[test]
fn arguments_before_cursor() {
    let args = vec![call_arg(13, 14), call_arg(16, 17)];
    assert_eq!(count_args_before_cursor(&args, 12), 0);
    assert_eq!(count_args_before_cursor(&args, 14), 0);
    assert_eq!(count_args_before_cursor(&args, 15), 1);
    assert_eq!(count_args_before_cursor(&args, 18), 2);
    assert_eq!(count_args_before_cursor(&vec![], 5), 0);
}

#[test]
fn parameters_by_label_or_position() {
    assert_eq!(build_parameters(&Some(vec![field("b", 1), field("a", 0)]), 2), vec!["a", "b"]);
    assert_eq!(build_parameters(&None, 3), vec!["arg0", "arg1", "arg2"]);
    assert!(build_parameters(&None, 0).is_empty());
}

#[test]
fn signature_labels() {
    let t = CallTarget { name: "f".to_string(), arity: 2, fields: None, return_type_text: "Bool".to_string() };
    let s = build_fn_signature(&t, 1);
    assert_eq!(s.label, "fn f(arg0, arg1)");
    assert_eq!(s.parameters, vec!["arg0", "arg1"]);
    assert_eq!(s.active_parameter, 1);
    let t = CallTarget {
        name: "mk".to_string(),
        arity: 2,
        fields: Some(vec![field("y", 1), field("x", 0)]),
        return_type_text: "Point".to_string(),
    };
    assert_eq!(build_fn_signature(&t, 0).label, "fn mk(x, y)");
    let t = CallTarget { name: "now".to_string(), arity: 0, fields: None, return_type_text: "Int".to_string() };
    assert_eq!(build_fn_signature(&t, 0).label, "type: Int");
    assert!(build_signature(&None, 0).is_none());
}

#[test]
fn innermost_call_is_found() {
    let e = call(fn_var("f", 2, None));
    let (t, active) = find_call_in_expr(&e, 16).unwrap();
    assert_eq!(t.unwrap().name, "f");
    assert_eq!(active, 1);
    assert!(find_call_in_expr(&e, 18).is_none());
    assert!(find_call_in_expr(&e, 3).is_none());
}

#[test]
fn signature_help_at_cursor() {
    let m = module(call(fn_var("f", 2, None)));
    // Cursor on `2`: line 1, character 7.
    let h = signature_help(Some(&m), 1, 7).unwrap();
    assert_eq!(h.signatures.len(), 1);
    assert_eq!(h.signatures[0].label, "fn f(arg0, arg1)");
    assert_eq!(h.active_signature, 0);
    assert_eq!(h.active_parameter, 1);
    // Cursor on `1`.
    assert_eq!(signature_help(Some(&m), 1, 4).unwrap().active_parameter, 0);
    // Outside the call.
    assert!(signature_help(Some(&m), 0, 1).is_none());
    assert!(signature_help(None, 1, 7).is_none());
}

#[test]
fn qualified_function_keeps_its_arguments() {
    let qualified = |field_map| Expr::ModuleSelect {
        location: sp(11, 12),
        constructor: ModuleValueConstructor::Fn {
            name: "f".to_string(),
            arity: 2,
            field_map,
            type_text: "fn(Int, Int) -> Bool".to_string(),
            fn_return_text: Some("Bool".to_string()),
        },
    };
    let m = module(call(qualified(None)));
    let h = signature_help(Some(&m), 1, 7).unwrap();
    assert_eq!(h.signatures[0].label, "fn f(arg0, arg1)");
    assert_eq!(h.active_parameter, 1);
    let labelled = aiken_lsp::ast::FieldMap { fields: vec![field("b", 1), field("a", 0)] };
    let m = module(call(qualified(Some(labelled))));
    assert_eq!(signature_help(Some(&m), 1, 7).unwrap().signatures[0].label, "fn f(a, b)");
    let m = module(call(Expr::ModuleSelect { location: sp(11, 12), constructor: ModuleValueConstructor::Constant }));
    assert!(signature_help(Some(&m), 1, 7).is_none());
}

#[test]
fn local_variable_call_has_no_signature() {
    let fun = Expr::Var {
        location: sp(11, 12),
        name: "f".to_string(),
        constructor: ValueConstructor {
            variant: ValueConstructorVariant::LocalVariable,
            type_text: "fn(Int, Int) -> Bool".to_string(),
            fn_return_text: Some("Bool".to_string()),
        },
    };
    assert!(signature_help(Some(&module(call(fun))), 1, 7).is_none());
}
